//! Bit sequences and bytes: packing a bit sequence into zero-padded bytes
//! (most significant bit first), unpacking bytes into bits, and the
//! big-endian 64-bit length prefix of the container format.

use vstd::prelude::*;

verus! {

/// Bit `i` of a byte, counting from the most significant bit.
pub open spec fn byte_bit(b: u8, i: int) -> bool {
    ((b >> ((7 - i) as u8)) & 1) == 1
}

/// The bits of a byte sequence, most significant bit of each byte first.
pub open spec fn bits_of_bytes(bytes: Seq<u8>) -> Seq<bool> {
    Seq::new((bytes.len() * 8) as nat, |i: int| byte_bit(bytes[i / 8], i % 8))
}

/// The weight a bit contributes to its byte, 0 when absent or clear.
pub open spec fn bit_weight(bits: Seq<bool>, i: int, w: u8) -> int {
    if i < bits.len() && bits[i] {
        w as int
    } else {
        0
    }
}

/// The byte packed from `bits[start..start + 8]`, zero-padded past the end.
pub open spec fn packed_byte(bits: Seq<bool>, start: int) -> u8 {
    (bit_weight(bits, start, 128) + bit_weight(bits, start + 1, 64) + bit_weight(
        bits,
        start + 2,
        32,
    ) + bit_weight(bits, start + 3, 16) + bit_weight(bits, start + 4, 8) + bit_weight(
        bits,
        start + 5,
        4,
    ) + bit_weight(bits, start + 6, 2) + bit_weight(bits, start + 7, 1)) as u8
}

/// A bit sequence packed into bytes, zero-padded to a whole byte boundary.
pub open spec fn packed_bytes(bits: Seq<bool>) -> Seq<u8> {
    Seq::new(((bits.len() + 7) / 8) as nat, |i: int| packed_byte(bits, 8 * i))
}

/// The eight bytes of a 64-bit value, most significant first.
pub open spec fn be_bytes_of(n: u64) -> Seq<u8> {
    seq![
        (n >> 56u64) as u8,
        (n >> 48u64) as u8,
        (n >> 40u64) as u8,
        (n >> 32u64) as u8,
        (n >> 24u64) as u8,
        (n >> 16u64) as u8,
        (n >> 8u64) as u8,
        n as u8,
    ]
}

/// The 64-bit value read from the first eight bytes, most significant first.
pub open spec fn be_value_of(b: Seq<u8>) -> int {
    (b[0] as int) * 0x100_0000_0000_0000 + (b[1] as int) * 0x1_0000_0000_0000 + (b[2] as int)
        * 0x100_0000_0000 + (b[3] as int) * 0x1_0000_0000 + (b[4] as int) * 0x100_0000 + (
    b[5] as int) * 0x1_0000 + (b[6] as int) * 0x100 + (b[7] as int)
}

/// Writing a value and reading it back is the identity.
pub proof fn lemma_be_round_trip(n: u64)
    ensures
        be_value_of(be_bytes_of(n)) == n,
{
    let b0 = (n >> 56u64) as u8;
    let b1 = (n >> 48u64) as u8;
    let b2 = (n >> 40u64) as u8;
    let b3 = (n >> 32u64) as u8;
    let b4 = (n >> 24u64) as u8;
    let b5 = (n >> 16u64) as u8;
    let b6 = (n >> 8u64) as u8;
    let b7 = n as u8;
    assert((b0 as int) * 0x100_0000_0000_0000 + (b1 as int) * 0x1_0000_0000_0000 + (b2 as int)
        * 0x100_0000_0000 + (b3 as int) * 0x1_0000_0000 + (b4 as int) * 0x100_0000 + (b5 as int)
        * 0x1_0000 + (b6 as int) * 0x100 + (b7 as int) == n) by (bit_vector)
        requires
            b0 == (n >> 56u64) as u8,
            b1 == (n >> 48u64) as u8,
            b2 == (n >> 40u64) as u8,
            b3 == (n >> 32u64) as u8,
            b4 == (n >> 24u64) as u8,
            b5 == (n >> 16u64) as u8,
            b6 == (n >> 8u64) as u8,
            b7 == n as u8,
    ;
}

proof fn lemma_byte_bit_of_sum(
    b: u8,
    w0: u8,
    w1: u8,
    w2: u8,
    w3: u8,
    w4: u8,
    w5: u8,
    w6: u8,
    w7: u8,
    r: u8,
)
    by (bit_vector)
    requires
        w0 == 0 || w0 == 128,
        w1 == 0 || w1 == 64,
        w2 == 0 || w2 == 32,
        w3 == 0 || w3 == 16,
        w4 == 0 || w4 == 8,
        w5 == 0 || w5 == 4,
        w6 == 0 || w6 == 2,
        w7 == 0 || w7 == 1,
        b == w0 + w1 + w2 + w3 + w4 + w5 + w6 + w7,
        r < 8,
    ensures
        (((b >> ((7 - r) as u8)) & 1) == 1) == ((r == 0 && w0 != 0) || (r == 1 && w1 != 0) || (r
            == 2 && w2 != 0) || (r == 3 && w3 != 0) || (r == 4 && w4 != 0) || (r == 5 && w5 != 0)
            || (r == 6 && w6 != 0) || (r == 7 && w7 != 0)),
{
}

/// Bit `r` of a packed byte is the bit the byte was packed from.
proof fn lemma_packed_byte_bit(bits: Seq<bool>, start: int, r: int)
    requires
        0 <= start,
        0 <= r < 8,
    ensures
        byte_bit(packed_byte(bits, start), r) == (start + r < bits.len() && bits[start + r]),
{
    let w0 = bit_weight(bits, start, 128) as u8;
    let w1 = bit_weight(bits, start + 1, 64) as u8;
    let w2 = bit_weight(bits, start + 2, 32) as u8;
    let w3 = bit_weight(bits, start + 3, 16) as u8;
    let w4 = bit_weight(bits, start + 4, 8) as u8;
    let w5 = bit_weight(bits, start + 5, 4) as u8;
    let w6 = bit_weight(bits, start + 6, 2) as u8;
    let w7 = bit_weight(bits, start + 7, 1) as u8;
    let b = packed_byte(bits, start);
    assert(b == w0 + w1 + w2 + w3 + w4 + w5 + w6 + w7);
    lemma_byte_bit_of_sum(b, w0, w1, w2, w3, w4, w5, w6, w7, r as u8);
}

/// Packing a bit sequence into bytes and unpacking them again restores every
/// bit; only the zero padding of the last byte follows them.
pub proof fn lemma_pack_round_trip(bits: Seq<bool>, i: int)
    requires
        0 <= i < bits.len(),
    ensures
        bits_of_bytes(packed_bytes(bits)).len() == 8 * ((bits.len() + 7) / 8),
        bits_of_bytes(packed_bytes(bits))[i] == bits[i],
        i < bits_of_bytes(packed_bytes(bits)).len(),
{
    let bytes = packed_bytes(bits);
    let len = bits.len() as int;
    assert(8 * ((len + 7) / 8) >= len) by {
        vstd::arithmetic::div_mod::lemma_fundamental_div_mod(len + 7, 8);
    }
    assert(0 <= i / 8 < bytes.len() && i % 8 == i - 8 * (i / 8)) by {
        vstd::arithmetic::div_mod::lemma_fundamental_div_mod(i, 8);
    }
    assert(bytes[i / 8] == packed_byte(bits, 8 * (i / 8)));
    lemma_packed_byte_bit(bits, 8 * (i / 8), i % 8);
}

/// Unpack a byte buffer into its bits, most significant bit of each byte
/// first.
#[verifier::loop_isolation(false)]
pub fn bytes_to_bits(bytes: &Vec<u8>) -> (r: Vec<bool>)
    requires
        bytes@.len() * 8 <= usize::MAX,
    ensures
        r@ == bits_of_bytes(bytes@),
{
    let n: usize = bytes.len();
    let mut out: Vec<bool> = Vec::new();
    let mut i: usize = 0;
    while i < n
        invariant
            i <= n,
            out@.len() == 8 * i,
            forall|j: int| 0 <= j < 8 * i ==> out@[j] == byte_bit(bytes@[j / 8], j % 8),
        decreases n - i,
    {
        let b = bytes[i];
        out.push(((b >> 7u8) & 1) == 1);
        out.push(((b >> 6u8) & 1) == 1);
        out.push(((b >> 5u8) & 1) == 1);
        out.push(((b >> 4u8) & 1) == 1);
        out.push(((b >> 3u8) & 1) == 1);
        out.push(((b >> 2u8) & 1) == 1);
        out.push(((b >> 1u8) & 1) == 1);
        out.push(((b >> 0u8) & 1) == 1);
        proof {
            assert forall|j: int| 0 <= j < 8 * (i + 1) implies out@[j] == byte_bit(
                bytes@[j / 8],
                j % 8,
            ) by {
                if j >= 8 * i {
                    assert(j / 8 == i && j % 8 == j - 8 * i);
                }
            }
        }
        i += 1;
    }
    proof {
        assert(out@ =~= bits_of_bytes(bytes@));
    }
    out
}

/// Pack a bit sequence into bytes, zero-padding the last byte.
#[verifier::loop_isolation(false)]
pub fn bits_to_bytes(bits: &Vec<bool>) -> (r: Vec<u8>)
    ensures
        r@ == packed_bytes(bits@),
{
    let len: usize = bits.len();
    let n: usize = len / 8 + (if len % 8 == 0 {
        0
    } else {
        1
    });
    proof {
        assert(n == (bits@.len() + 7) / 8);
    }
    let mut out: Vec<u8> = Vec::new();
    let mut i: usize = 0;
    while i < n
        invariant
            i <= n,
            out@.len() == i,
            forall|j: int| 0 <= j < i ==> out@[j] == packed_byte(bits@, 8 * j),
        decreases n - i,
    {
        let base: usize = 8 * i;
        let mut b: u8 = 0;
        if base < len && bits[base] {
            b = b + 128;
        }
        if base + 1 < len && bits[base + 1] {
            b = b + 64;
        }
        if base + 2 < len && bits[base + 2] {
            b = b + 32;
        }
        if base + 3 < len && bits[base + 3] {
            b = b + 16;
        }
        if base + 4 < len && bits[base + 4] {
            b = b + 8;
        }
        if base + 5 < len && bits[base + 5] {
            b = b + 4;
        }
        if base + 6 < len && bits[base + 6] {
            b = b + 2;
        }
        if base + 7 < len && bits[base + 7] {
            b = b + 1;
        }
        out.push(b);
        i += 1;
    }
    proof {
        assert(out@ =~= packed_bytes(bits@));
    }
    out
}

/// The container's length prefix: a 64-bit value as eight big-endian bytes.
pub fn u64_to_be_bytes(n: u64) -> (r: Vec<u8>)
    ensures
        r@ == be_bytes_of(n),
{
    let mut out: Vec<u8> = Vec::new();
    out.push((n >> 56u64) as u8);
    out.push((n >> 48u64) as u8);
    out.push((n >> 40u64) as u8);
    out.push((n >> 32u64) as u8);
    out.push((n >> 24u64) as u8);
    out.push((n >> 16u64) as u8);
    out.push((n >> 8u64) as u8);
    out.push(n as u8);
    proof {
        assert(out@ =~= be_bytes_of(n));
    }
    out
}

/// Read the container's length prefix from the first eight bytes.
pub fn u64_from_be_bytes(bytes: &Vec<u8>) -> (r: u64)
    requires
        bytes@.len() >= 8,
    ensures
        r == be_value_of(bytes@),
{
    let ghost b = bytes@;
    let r: u64 = ((bytes[0] as u64) << 56u64) | ((bytes[1] as u64) << 48u64) | ((
    bytes[2] as u64) << 40u64) | ((bytes[3] as u64) << 32u64) | ((bytes[4] as u64) << 24u64) | ((
    bytes[5] as u64) << 16u64) | ((bytes[6] as u64) << 8u64) | (bytes[7] as u64);
    proof {
        let x0 = b[0];
        let x1 = b[1];
        let x2 = b[2];
        let x3 = b[3];
        let x4 = b[4];
        let x5 = b[5];
        let x6 = b[6];
        let x7 = b[7];
        assert(((x0 as u64) << 56u64) | ((x1 as u64) << 48u64) | ((x2 as u64) << 40u64) | ((
        x3 as u64) << 32u64) | ((x4 as u64) << 24u64) | ((x5 as u64) << 16u64) | ((x6 as u64)
            << 8u64) | (x7 as u64) == (x0 as int) * 0x100_0000_0000_0000 + (x1 as int)
            * 0x1_0000_0000_0000 + (x2 as int) * 0x100_0000_0000 + (x3 as int) * 0x1_0000_0000 + (
        x4 as int) * 0x100_0000 + (x5 as int) * 0x1_0000 + (x6 as int) * 0x100 + (
        x7 as int)) by (bit_vector);
    }
    r
}

} // verus!
