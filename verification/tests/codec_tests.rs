use toy_ac::bits::{bits_to_bytes, bytes_to_bits, u64_from_be_bytes, u64_to_be_bytes};
use toy_ac::codec::{byte_model, compress, compress_order1, decompress, decompress_order1};
use toy_ac::decoder::{CodecError, Decoder};
use toy_ac::encoder::Encoder;
use toy_ac::symbol_model::VectorCountSymbolModel;

#[test]
fn straddle_defers_bits() {
    // A symbol whose interval sits across the midpoint decides nothing yet:
    // the encoder defers one straddle bit instead of emitting.
    let mut m = VectorCountSymbolModel::new(vec![b'a', b'b', b'c']);
    m.set_count(&b'b', 2);
    let mut enc = Encoder::new();
    let mut bits: Vec<bool> = Vec::new();
    enc.encode(&b'b', &m, &mut bits);
    assert_eq!(bits.len(), 0);
    assert_eq!(enc.pending, 1);
    enc.finish(&mut bits);
    assert_eq!(bits.len(), 33);
    assert!(bits[0]);
    for k in 1..33 {
        assert!(!bits[k]);
    }
}

#[test]
fn empty_input_container() {
    // No symbols: the container is an all-zero length prefix followed by the
    // finish word alone, a 1 bit and 31 zeros packed into four bytes.
    let out = compress(&vec![]);
    assert_eq!(
        out,
        vec![0x00, 0x00, 0x00, 0x00, 0x00, 0x00, 0x00, 0x00, 0x80, 0x00, 0x00, 0x00]
    );
    assert_eq!(decompress(&out), Ok(vec![]));
}

#[test]
fn single_byte_round_trip() {
    // A fresh byte model holds 256 counts of 1, so 'A' owns [65, 66).
    let m = byte_model();
    assert_eq!(m.total(), 256);
    assert_eq!(m.interval(&0x41), (65, 66));
    let out = compress(&vec![0x41]);
    assert_eq!(decompress(&out), Ok(vec![0x41]));
}

#[test]
fn two_identical_bytes_round_trip() {
    let mut m = byte_model();
    m.incr_count(&0x00);
    assert_eq!(m.total(), 257);
    assert_eq!(m.interval(&0x00), (0, 2));
    let out = compress(&vec![0x00, 0x00]);
    assert_eq!(decompress(&out), Ok(vec![0x00, 0x00]));
}

#[test]
fn all_byte_values_round_trip() {
    let input: Vec<u8> = (0..=255).collect();
    let out = compress(&input);
    assert_eq!(decompress(&out), Ok(input));
}

#[test]
fn repetition_stress_round_trip() {
    // A million copies of one byte force the model through renormalization
    // and still round-trip exactly; the payload stays far under a byte per
    // symbol.
    let input: Vec<u8> = vec![0x61; 1_000_000];
    let out = compress(&input);
    assert!(out.len() - 8 <= 1_000_000);
    assert_eq!(decompress(&out), Ok(input));
}

#[test]
fn repetition_stress_model_renormalizes() {
    let mut m = byte_model();
    for _ in 0..1_000_000 {
        m.incr_count(&0x61);
    }
    assert!(m.total() < 1_000_000);
    assert!(m.counts[0x61] > 1);
}

#[test]
fn prose_round_trip_both_orders() {
    let input: Vec<u8> = b"Hello, world!\n".to_vec();
    assert_eq!(input.len(), 14);
    let out0 = compress(&input);
    assert_eq!(decompress(&out0), Ok(input.clone()));
    let out1 = compress_order1(&input);
    assert_eq!(decompress_order1(&out1), Ok(input));
}

#[test]
fn short_input_is_an_error() {
    // Shorter than a header.
    assert_eq!(decompress(&vec![]), Err(CodecError::OutOfBits));
    assert_eq!(decompress(&vec![0x00; 7]), Err(CodecError::OutOfBits));
    // A header promising one symbol with no payload at all.
    assert_eq!(
        decompress(&vec![0x00, 0x00, 0x00, 0x00, 0x00, 0x00, 0x00, 0x01]),
        Err(CodecError::OutOfBits)
    );
    // A truncated container: the payload is cut below the decoder's first
    // 32-bit load.
    let mut out = compress(&b"Hello, world!\n".to_vec());
    out.truncate(9);
    assert_eq!(decompress(&out), Err(CodecError::OutOfBits));
    assert_eq!(
        decompress_order1(&vec![0x00, 0x00, 0x00, 0x00, 0x00, 0x00, 0x00, 0x01]),
        Err(CodecError::OutOfBits)
    );
}

#[test]
fn encoder_finish_emits_the_stop_word() {
    let mut enc = Encoder::new();
    let mut bits: Vec<bool> = Vec::new();
    enc.finish(&mut bits);
    assert_eq!(bits.len(), 32);
    assert!(bits[0]);
    for k in 1..32 {
        assert!(!bits[k]);
    }
}

#[test]
fn decoder_initial_state() {
    let dec = Decoder::new();
    assert_eq!(dec.low(), 0);
    assert_eq!(dec.high(), 0xffffffff);
    assert_eq!(dec.buffer(), 0);
}

#[test]
fn bit_packing_exact_values() {
    let bits = vec![true, false, true, false, false, true, false, true, true];
    // 0b10100101 then a lone 1 padded with zeros.
    assert_eq!(bits_to_bytes(&bits), vec![0xa5, 0x80]);
    assert_eq!(
        bytes_to_bits(&vec![0xa5]),
        vec![true, false, true, false, false, true, false, true]
    );
    assert_eq!(bits_to_bytes(&vec![]), vec![]);
}

#[test]
fn length_prefix_exact_values() {
    let bytes = u64_to_be_bytes(0x0123456789abcdef);
    assert_eq!(bytes, vec![0x01, 0x23, 0x45, 0x67, 0x89, 0xab, 0xcd, 0xef]);
    assert_eq!(u64_from_be_bytes(&bytes), 0x0123456789abcdef);
    assert_eq!(u64_to_be_bytes(14), vec![0, 0, 0, 0, 0, 0, 0, 14]);
}
