//! Whole-buffer compression and decompression: the container is a big-endian
//! 64-bit symbol count followed by the arithmetic-coded payload, zero-padded
//! to a byte boundary.
//!
//! The order-0 adaptive mode runs one count model over all 256 byte values,
//! incrementing it after every symbol; encoder and decoder perform the same
//! updates in the same order.

use vstd::prelude::*;

use crate::bits::{
    be_bytes_of, be_value_of, bits_of_bytes, bits_to_bytes, bytes_to_bits, packed_bytes,
    u64_from_be_bytes, u64_to_be_bytes,
};
use crate::decoder::{dec_init, dec_step, CodecError, Decoder};
use crate::encoder::{encode_step, finish_bits, Encoder};
use crate::symbol_model::{bumped, cum, renorm, VectorCountSymbolModel};

verus! {

/// The counts of a fresh model: one for each of `n` symbols.
pub open spec fn ones(n: int) -> Seq<u32> {
    Seq::new(n as nat, |i: int| 1u32)
}

/// A model over bytes whose alphabet is `0, 1, ..., 255` in order.
pub open spec fn is_byte_model(m: VectorCountSymbolModel<u8>) -> bool {
    &&& m.inv()
    &&& m.symbols@.len() == 256
    &&& forall|k: int| 0 <= k < 256 ==> m.symbols@[k] == k as u8
}

/// In a byte model every byte sits at its own value's index.
pub proof fn lemma_byte_idx(m: VectorCountSymbolModel<u8>, b: u8)
    requires
        is_byte_model(m),
    ensures
        m.symbols@.contains(b),
        m.idx_of(b) == b as int,
{
    assert(m.symbols@[b as int] == b);
    assert(m.symbols@.contains(b));
    let k = m.idx_of(b);
    assert(0 <= k < 256 && m.symbols@[k] == b);
    if k < b as int {
        assert(m.symbols@[k] != m.symbols@[b as int]);
        assert(false);
    } else if k > b as int {
        assert(m.symbols@[b as int] != m.symbols@[k]);
        assert(false);
    }
}

/// A fresh order-0 model over all 256 byte values in their natural order.
pub fn byte_model() -> (r: VectorCountSymbolModel<u8>)
    ensures
        is_byte_model(r),
        r.counts@ == ones(256),
        r.total == 256,
{
    let mut syms: Vec<u8> = Vec::new();
    let mut b: usize = 0;
    while b < 256
        invariant
            b <= 256,
            syms@.len() == b,
            forall|k: int| 0 <= k < b ==> syms@[k] == k as u8,
        decreases 256 - b,
    {
        syms.push(b as u8);
        b += 1;
    }
    let r = VectorCountSymbolModel::new(syms);
    proof {
        assert(r.counts@ =~= ones(256));
    }
    r
}

/// The encoder run over an input under the order-0 adaptive model: each
/// symbol is encoded against the current counts, whose entry for it is then
/// bumped (and renormalized).  Yields the final counts, range, pending count
/// and all emitted bits.
pub open spec fn enc_run(input: Seq<u8>, c: Seq<u32>, lo: int, hi: int, pending: int) -> (
    Seq<u32>,
    int,
    int,
    int,
    Seq<bool>,
)
    decreases input.len(),
{
    if input.len() == 0 {
        (c, lo, hi, pending, Seq::<bool>::empty())
    } else {
        let s = input[0] as int;
        let st = encode_step(lo, hi, pending, cum(c, s), cum(c, s + 1), cum(c, c.len() as int));
        let c2 = renorm(bumped(c, s));
        let rest = enc_run(input.drop_first(), c2, st.0, st.1, st.2);
        (rest.0, rest.1, rest.2, rest.3, st.3 + rest.4)
    }
}

/// Every bit of the order-0 payload: the per-symbol bits, then the finish
/// word.
pub open spec fn compress_bits(input: Seq<u8>) -> Seq<bool> {
    let r = enc_run(input, ones(256), 0, 0xFFFF_FFFF, 0);
    r.4 + finish_bits(r.3)
}

/// The whole order-0 container for an input.
pub open spec fn compressed(input: Seq<u8>) -> Seq<u8> {
    be_bytes_of(input.len() as u64) + packed_bytes(compress_bits(input))
}

/// The decoder run: `n` symbols decoded in sequence, the model updated in
/// lockstep with the encoder; `None` when the bits run out.
pub open spec fn dec_run(
    n: int,
    c: Seq<u32>,
    lo: int,
    hi: int,
    inited: bool,
    buf: int,
    bits: Seq<bool>,
    pos: int,
) -> Option<Seq<u8>>
    decreases n,
{
    if n <= 0 {
        Option::Some(Seq::<u8>::empty())
    } else {
        match dec_init(inited, buf, pos, bits) {
            Option::None => Option::None,
            Option::Some(ip) => match dec_step(c, lo, hi, ip.0, bits, ip.1) {
                Option::None => Option::None,
                Option::Some(st) => {
                    let c2 = renorm(bumped(c, st.0));
                    match dec_run(n - 1, c2, st.1, st.2, true, st.3, bits, st.4) {
                        Option::None => Option::None,
                        Option::Some(rest) => Option::Some(seq![st.0 as u8] + rest),
                    }
                },
            },
        }
    }
}

/// What decompression yields on a byte buffer: the header names the symbol
/// count, the rest of the buffer is the payload; `None` when the buffer is
/// shorter than a header or the payload runs out of bits.
pub open spec fn decompressed(bytes: Seq<u8>) -> Option<Seq<u8>> {
    if bytes.len() < 8 {
        Option::None
    } else {
        dec_run(
            be_value_of(bytes),
            ones(256),
            0,
            0xFFFF_FFFF,
            false,
            0,
            bits_of_bytes(bytes.skip(8)),
            0,
        )
    }
}

/// Compress a byte buffer under the order-0 adaptive model.
///
/// The length bound keeps the encoder's deferred-bit counter within `u32`:
/// a symbol can defer at most 32 straddle bits.
#[verifier::loop_isolation(false)]
pub fn compress(input: &Vec<u8>) -> (r: Vec<u8>)
    requires
        input@.len() <= 0x0780_0000,
    ensures
        r@ == compressed(input@),
{
    let mut m = byte_model();
    let mut enc = Encoder::new();
    let mut bits: Vec<bool> = Vec::new();
    let n: usize = input.len();
    let mut i: usize = 0;
    proof {
        assert(input@.skip(0) =~= input@);
        assert(Seq::<bool>::empty() + enc_run(input@, ones(256), 0, 0xFFFF_FFFF, 0).4 =~= enc_run(
            input@,
            ones(256),
            0,
            0xFFFF_FFFF,
            0,
        ).4);
    }
    while i < n
        invariant
            i <= n,
            is_byte_model(m),
            enc.inv(),
            !enc.finished,
            enc.pending <= 32 * i,
            ({
                let full = enc_run(input@, ones(256), 0, 0xFFFF_FFFF, 0);
                let rest = enc_run(
                    input@.skip(i as int),
                    m.counts@,
                    enc.range.low as int,
                    enc.range.high as int,
                    enc.pending as int,
                );
                &&& full.0 == rest.0
                &&& full.1 == rest.1
                &&& full.2 == rest.2
                &&& full.3 == rest.3
                &&& full.4 == bits@ + rest.4
            }),
        decreases n - i,
    {
        let b = input[i];
        proof {
            lemma_byte_idx(m, b);
            assert(input@.skip(i as int)[0] == b);
            assert(input@.skip(i as int).drop_first() =~= input@.skip(i as int + 1));
        }
        let ghost m_before = m;
        let ghost bits_before = bits@;
        let ghost lo_b = enc.range.low as int;
        let ghost hi_b = enc.range.high as int;
        let ghost p_b = enc.pending as int;
        enc.encode(&b, &m, &mut bits);
        m.incr_count(&b);
        i += 1;
        proof {
            let s = b as int;
            let c0 = m_before.counts@;
            let st = encode_step(lo_b, hi_b, p_b, cum(c0, s), cum(c0, s + 1), cum(c0, 256));
            assert(enc.range.low == st.0 && enc.range.high == st.1 && enc.pending == st.2);
            assert(bits@ == bits_before + st.3);
            assert(m.counts@ == renorm(bumped(c0, s)));
            let rest2 = enc_run(
                input@.skip(i as int),
                m.counts@,
                enc.range.low as int,
                enc.range.high as int,
                enc.pending as int,
            );
            assert(enc_run(input@.skip(i - 1), c0, lo_b, hi_b, p_b).4 == st.3 + rest2.4);
            assert(bits_before + (st.3 + rest2.4) =~= (bits_before + st.3) + rest2.4);
        }
    }
    proof {
        assert(input@.skip(n as int) =~= Seq::<u8>::empty());
    }
    enc.finish(&mut bits);
    let payload = bits_to_bytes(&bits);
    let mut out = u64_to_be_bytes(n as u64);
    let mut j: usize = 0;
    let pl: usize = payload.len();
    while j < pl
        invariant
            j <= pl,
            out@ == be_bytes_of(n as u64) + payload@.take(j as int),
        decreases pl - j,
    {
        out.push(payload[j]);
        proof {
            assert(out@ =~= be_bytes_of(n as u64) + payload@.take(j as int + 1));
        }
        j += 1;
    }
    proof {
        assert(payload@.take(pl as int) =~= payload@);
        assert(out@ =~= compressed(input@));
    }
    out
}

/// Decompress an order-0 container back into the bytes it was made from.
///
/// Returns `Err` when the buffer is shorter than a header or the payload
/// ends before the promised number of symbols has been decoded.
#[verifier::loop_isolation(false)]
pub fn decompress(bytes: &Vec<u8>) -> (r: Result<Vec<u8>, CodecError>)
    requires
        bytes@.len() * 8 <= usize::MAX,
    ensures
        match decompressed(bytes@) {
            Option::None => r is Err,
            Option::Some(out) => r is Ok && r->Ok_0@ == out,
        },
{
    if bytes.len() < 8 {
        return Result::Err(CodecError::OutOfBits);
    }
    let n: u64 = u64_from_be_bytes(bytes);
    let mut payload: Vec<u8> = Vec::new();
    let mut k: usize = 8;
    let blen: usize = bytes.len();
    while k < blen
        invariant
            8 <= k <= blen,
            payload@ =~= bytes@.subrange(8, k as int),
        decreases blen - k,
    {
        payload.push(bytes[k]);
        k += 1;
    }
    proof {
        assert(payload@ =~= bytes@.skip(8));
    }
    let bits = bytes_to_bits(&payload);
    let mut m = byte_model();
    let mut dec = Decoder::new();
    let mut pos: usize = 0;
    let mut out: Vec<u8> = Vec::new();
    let mut i: u64 = 0;
    while i < n
        invariant
            i <= n,
            is_byte_model(m),
            dec.inv(),
            pos <= bits@.len(),
            out@.len() == i,
            ({
                let full = dec_run(n as int, ones(256), 0, 0xFFFF_FFFF, false, 0, bits@, 0);
                let rest = dec_run(
                    n - i,
                    m.counts@,
                    dec.range.low as int,
                    dec.range.high as int,
                    dec.initialized,
                    dec.buffer as int,
                    bits@,
                    pos as int,
                );
                match rest {
                    Option::None => full is None,
                    Option::Some(tail) => full == Option::Some(out@ + tail),
                }
            }),
        decreases n - i,
    {
        let ghost m_before = m;
        let sym: u8 = match dec.decode(&m, &bits, &mut pos) {
            Result::Ok(s) => *s,
            Result::Err(e) => {
                return Result::Err(e);
            },
        };
        proof {
            lemma_byte_idx(m, sym);
        }
        m.incr_count(&sym);
        out.push(sym);
        i = i + 1;
    }
    proof {
        assert(dec_run(
            0,
            m.counts@,
            dec.range.low as int,
            dec.range.high as int,
            dec.initialized,
            dec.buffer as int,
            bits@,
            pos as int,
        ) == Option::Some(Seq::<u8>::empty()));
        assert(out@ + Seq::<u8>::empty() =~= out@);
    }
    Result::Ok(out)
}

/// One fresh set of counts for each of `n` contexts.
pub open spec fn ones_map(n: int) -> Seq<Seq<u32>> {
    Seq::new(n as nat, |p: int| ones(256))
}

/// The counts every context model of an order-1 codec holds.
pub open spec fn counts_map(models: Seq<VectorCountSymbolModel<u8>>) -> Seq<Seq<u32>> {
    Seq::new(models.len(), |p: int| models[p].counts@)
}

/// The encoder run under the order-1 adaptive model: each symbol is encoded
/// against the model of the previous byte (initially 0), which is then
/// bumped, and the byte becomes the next context.
pub open spec fn enc_run_o1(
    input: Seq<u8>,
    cmap: Seq<Seq<u32>>,
    prev: int,
    lo: int,
    hi: int,
    pending: int,
) -> (Seq<Seq<u32>>, int, int, int, Seq<bool>)
    decreases input.len(),
{
    if input.len() == 0 {
        (cmap, lo, hi, pending, Seq::<bool>::empty())
    } else {
        let s = input[0] as int;
        let c = cmap[prev];
        let st = encode_step(lo, hi, pending, cum(c, s), cum(c, s + 1), cum(c, c.len() as int));
        let cmap2 = cmap.update(prev, renorm(bumped(c, s)));
        let rest = enc_run_o1(input.drop_first(), cmap2, s, st.0, st.1, st.2);
        (rest.0, rest.1, rest.2, rest.3, st.3 + rest.4)
    }
}

/// Every bit of the order-1 payload.
pub open spec fn compress_bits_order1(input: Seq<u8>) -> Seq<bool> {
    let r = enc_run_o1(input, ones_map(256), 0, 0, 0xFFFF_FFFF, 0);
    r.4 + finish_bits(r.3)
}

/// The whole order-1 container for an input.
pub open spec fn compressed_order1(input: Seq<u8>) -> Seq<u8> {
    be_bytes_of(input.len() as u64) + packed_bytes(compress_bits_order1(input))
}

/// The decoder run under the order-1 adaptive model, mirroring the encoder's
/// context switching; `None` when the bits run out.
pub open spec fn dec_run_o1(
    n: int,
    cmap: Seq<Seq<u32>>,
    prev: int,
    lo: int,
    hi: int,
    inited: bool,
    buf: int,
    bits: Seq<bool>,
    pos: int,
) -> Option<Seq<u8>>
    decreases n,
{
    if n <= 0 {
        Option::Some(Seq::<u8>::empty())
    } else {
        match dec_init(inited, buf, pos, bits) {
            Option::None => Option::None,
            Option::Some(ip) => match dec_step(cmap[prev], lo, hi, ip.0, bits, ip.1) {
                Option::None => Option::None,
                Option::Some(st) => {
                    let cmap2 = cmap.update(prev, renorm(bumped(cmap[prev], st.0)));
                    match dec_run_o1(n - 1, cmap2, st.0, st.1, st.2, true, st.3, bits, st.4) {
                        Option::None => Option::None,
                        Option::Some(rest) => Option::Some(seq![st.0 as u8] + rest),
                    }
                },
            },
        }
    }
}

/// What order-1 decompression yields on a byte buffer.
pub open spec fn decompressed_order1(bytes: Seq<u8>) -> Option<Seq<u8>> {
    if bytes.len() < 8 {
        Option::None
    } else {
        dec_run_o1(
            be_value_of(bytes),
            ones_map(256),
            0,
            0,
            0xFFFF_FFFF,
            false,
            0,
            bits_of_bytes(bytes.skip(8)),
            0,
        )
    }
}

/// The 256 fresh context models of an order-1 codec.
fn context_models() -> (r: Vec<VectorCountSymbolModel<u8>>)
    ensures
        r@.len() == 256,
        forall|q: int| 0 <= q < 256 ==> is_byte_model(#[trigger] r@[q]),
        counts_map(r@) == ones_map(256),
{
    let mut models: Vec<VectorCountSymbolModel<u8>> = Vec::new();
    let mut p: usize = 0;
    while p < 256
        invariant
            p <= 256,
            models@.len() == p,
            forall|q: int|
                0 <= q < p ==> is_byte_model(#[trigger] models@[q]) && models@[q].counts@ == ones(
                    256,
                ),
        decreases 256 - p,
    {
        models.push(byte_model());
        p += 1;
    }
    proof {
        assert(counts_map(models@) =~~= ones_map(256));
    }
    models
}

/// Compress a byte buffer under the order-1 adaptive model: 256 count
/// models indexed by the previous byte, the initial context being 0.
#[verifier::loop_isolation(false)]
pub fn compress_order1(input: &Vec<u8>) -> (r: Vec<u8>)
    requires
        input@.len() <= 0x0780_0000,
    ensures
        r@ == compressed_order1(input@),
{
    let mut models = context_models();
    let mut enc = Encoder::new();
    let mut bits: Vec<bool> = Vec::new();
    let mut prev: u8 = 0;
    let n: usize = input.len();
    let mut i: usize = 0;
    proof {
        assert(input@.skip(0) =~= input@);
        assert(Seq::<bool>::empty() + enc_run_o1(input@, ones_map(256), 0, 0, 0xFFFF_FFFF, 0).4
            =~= enc_run_o1(input@, ones_map(256), 0, 0, 0xFFFF_FFFF, 0).4);
    }
    while i < n
        invariant
            i <= n,
            models@.len() == 256,
            forall|q: int| 0 <= q < 256 ==> is_byte_model(#[trigger] models@[q]),
            enc.inv(),
            !enc.finished,
            enc.pending <= 32 * i,
            ({
                let full = enc_run_o1(input@, ones_map(256), 0, 0, 0xFFFF_FFFF, 0);
                let rest = enc_run_o1(
                    input@.skip(i as int),
                    counts_map(models@),
                    prev as int,
                    enc.range.low as int,
                    enc.range.high as int,
                    enc.pending as int,
                );
                &&& full.0 == rest.0
                &&& full.1 == rest.1
                &&& full.2 == rest.2
                &&& full.3 == rest.3
                &&& full.4 == bits@ + rest.4
            }),
        decreases n - i,
    {
        let b = input[i];
        proof {
            lemma_byte_idx(models@[prev as int], b);
            assert(input@.skip(i as int)[0] == b);
            assert(input@.skip(i as int).drop_first() =~= input@.skip(i as int + 1));
        }
        let ghost models_before = models@;
        let ghost bits_before = bits@;
        let ghost prev_b = prev as int;
        let ghost lo_b = enc.range.low as int;
        let ghost hi_b = enc.range.high as int;
        let ghost p_b = enc.pending as int;
        enc.encode(&b, &models[prev as usize], &mut bits);
        let mut ctx = models.remove(prev as usize);
        ctx.incr_count(&b);
        models.insert(prev as usize, ctx);
        prev = b;
        i += 1;
        proof {
            let s = b as int;
            let c0 = models_before[prev_b].counts@;
            assert(models@ =~= models_before.update(prev_b, models@[prev_b]));
            assert(counts_map(models@) =~~= counts_map(models_before).update(
                prev_b,
                renorm(bumped(c0, s)),
            ));
            let st = encode_step(lo_b, hi_b, p_b, cum(c0, s), cum(c0, s + 1), cum(c0, 256));
            assert(enc.range.low == st.0 && enc.range.high == st.1 && enc.pending == st.2);
            assert(bits@ == bits_before + st.3);
            let rest2 = enc_run_o1(
                input@.skip(i as int),
                counts_map(models@),
                prev as int,
                enc.range.low as int,
                enc.range.high as int,
                enc.pending as int,
            );
            assert(enc_run_o1(
                input@.skip(i - 1),
                counts_map(models_before),
                prev_b,
                lo_b,
                hi_b,
                p_b,
            ).4 == st.3 + rest2.4);
            assert(bits_before + (st.3 + rest2.4) =~= (bits_before + st.3) + rest2.4);
        }
    }
    proof {
        assert(input@.skip(n as int) =~= Seq::<u8>::empty());
    }
    enc.finish(&mut bits);
    let payload = bits_to_bytes(&bits);
    let mut out = u64_to_be_bytes(n as u64);
    let mut j: usize = 0;
    let pl: usize = payload.len();
    while j < pl
        invariant
            j <= pl,
            out@ == be_bytes_of(n as u64) + payload@.take(j as int),
        decreases pl - j,
    {
        out.push(payload[j]);
        proof {
            assert(out@ =~= be_bytes_of(n as u64) + payload@.take(j as int + 1));
        }
        j += 1;
    }
    proof {
        assert(payload@.take(pl as int) =~= payload@);
        assert(out@ =~= compressed_order1(input@));
    }
    out
}

/// Decompress an order-1 container back into the bytes it was made from.
#[verifier::loop_isolation(false)]
pub fn decompress_order1(bytes: &Vec<u8>) -> (r: Result<Vec<u8>, CodecError>)
    requires
        bytes@.len() * 8 <= usize::MAX,
    ensures
        match decompressed_order1(bytes@) {
            Option::None => r is Err,
            Option::Some(out) => r is Ok && r->Ok_0@ == out,
        },
{
    if bytes.len() < 8 {
        return Result::Err(CodecError::OutOfBits);
    }
    let n: u64 = u64_from_be_bytes(bytes);
    let mut payload: Vec<u8> = Vec::new();
    let mut k: usize = 8;
    let blen: usize = bytes.len();
    while k < blen
        invariant
            8 <= k <= blen,
            payload@ =~= bytes@.subrange(8, k as int),
        decreases blen - k,
    {
        payload.push(bytes[k]);
        k += 1;
    }
    proof {
        assert(payload@ =~= bytes@.skip(8));
    }
    let bits = bytes_to_bits(&payload);
    let mut models = context_models();
    let mut dec = Decoder::new();
    let mut prev: u8 = 0;
    let mut pos: usize = 0;
    let mut out: Vec<u8> = Vec::new();
    let mut i: u64 = 0;
    while i < n
        invariant
            i <= n,
            models@.len() == 256,
            forall|q: int| 0 <= q < 256 ==> is_byte_model(#[trigger] models@[q]),
            dec.inv(),
            pos <= bits@.len(),
            out@.len() == i,
            ({
                let full = dec_run_o1(n as int, ones_map(256), 0, 0, 0xFFFF_FFFF, false, 0, bits@, 0);
                let rest = dec_run_o1(
                    n - i,
                    counts_map(models@),
                    prev as int,
                    dec.range.low as int,
                    dec.range.high as int,
                    dec.initialized,
                    dec.buffer as int,
                    bits@,
                    pos as int,
                );
                match rest {
                    Option::None => full is None,
                    Option::Some(tail) => full == Option::Some(out@ + tail),
                }
            }),
        decreases n - i,
    {
        let ghost models_before = models@;
        let ghost prev_b = prev as int;
        let sym: u8 = match dec.decode(&models[prev as usize], &bits, &mut pos) {
            Result::Ok(s) => *s,
            Result::Err(e) => {
                return Result::Err(e);
            },
        };
        proof {
            lemma_byte_idx(models@[prev_b], sym);
        }
        let mut ctx = models.remove(prev as usize);
        ctx.incr_count(&sym);
        models.insert(prev as usize, ctx);
        prev = sym;
        out.push(sym);
        i = i + 1;
        proof {
            assert(models@ =~= models_before.update(prev_b, models@[prev_b]));
            assert(counts_map(models@) =~~= counts_map(models_before).update(
                prev_b,
                renorm(bumped(models_before[prev_b].counts@, sym as int)),
            ));
        }
    }
    proof {
        assert(dec_run_o1(
            0,
            counts_map(models@),
            prev as int,
            dec.range.low as int,
            dec.range.high as int,
            dec.initialized,
            dec.buffer as int,
            bits@,
            pos as int,
        ) == Option::Some(Seq::<u8>::empty()));
        assert(out@ + Seq::<u8>::empty() =~= out@);
    }
    Result::Ok(out)
}

} // verus!
