use toy_ac::coder::BitOrder;
use toy_ac::decoder::Decoder;
use toy_ac::encoder::Encoder;
use toy_ac::symbol_model::{SymbolModel, VectorCountSymbolModel};

fn encode_adaptive(text: &str) -> (Vec<bool>, u64) {
    let mut sm = VectorCountSymbolModel::new((0..=255u8).collect());
    let mut enc = Encoder::new();
    let mut bits = Vec::new();
    for b in text.bytes() {
        enc.encode(&b, &sm, &mut bits);
        sm.incr_count(&b);
    }
    enc.finish(&mut bits);
    (bits, enc.bits_written())
}

fn decode_adaptive(bits: &[bool], n: usize) -> Vec<u8> {
    let mut sm = VectorCountSymbolModel::new((0..=255u8).collect());
    let mut dec = Decoder::new();
    let mut pos = 0usize;
    let mut out = Vec::new();
    for _ in 0..n {
        let b = *dec.decode(&sm, bits, &mut pos, BitOrder::Msb);
        assert!(dec.low() <= dec.buffer() as u64 && dec.buffer() as u64 <= dec.high());
        out.push(b);
        sm.incr_count(&b);
    }
    assert!(pos <= bits.len());
    out
}

#[test]
fn fresh_encoder_and_decoder() {
    let enc = Encoder::new();
    assert_eq!(enc.high(), 0xffffffff);
    assert_eq!(enc.low(), 0);
    assert_eq!(enc.bits_written(), 0);
    let dec = Decoder::new();
    assert_eq!(dec.high(), 0xffffffff);
    assert_eq!(dec.low(), 0);
    assert_eq!(dec.buffer(), 0);
}

#[test]
fn two_symbol_stream_exact_bits() {
    let sm = VectorCountSymbolModel::new(vec!['a', 'b']);
    let mut enc = Encoder::new();
    let mut bits = Vec::new();
    enc.encode(&'a', &sm, &mut bits);
    assert_eq!(bits, vec![false]);
    assert_eq!(enc.low(), 0);
    assert_eq!(enc.high(), 0xffffffff);
    assert_eq!(enc.bits_written(), 1);
    enc.encode(&'b', &sm, &mut bits);
    assert_eq!(bits, vec![false, true]);
    enc.finish(&mut bits);
    let mut expected = vec![false, true, true];
    expected.extend(std::iter::repeat(false).take(31));
    assert_eq!(bits, expected);
    assert_eq!(enc.bits_written(), 34);

    let mut dec = Decoder::new();
    let mut pos = 0usize;
    assert_eq!(*dec.decode(&sm, &bits, &mut pos, BitOrder::Msb), 'a');
    assert_eq!(pos, 33);
    assert_eq!(dec.buffer(), 0xc0000000);
    assert_eq!(*dec.decode(&sm, &bits, &mut pos, BitOrder::Msb), 'b');
    assert_eq!(pos, 34);
}

#[test]
fn pending_bits_are_written_as_complements() {
    // The first symbol leaves the range straddling the midpoint inside the
    // middle quarters, so second order shifts become pending bits.
    let mut sm = VectorCountSymbolModel::new(vec![0u8, 1, 2]);
    sm.set_count(&0, 3);
    sm.set_count(&1, 2);
    sm.set_count(&2, 3);
    let mut enc = Encoder::new();
    let mut bits = Vec::new();
    enc.encode(&1, &sm, &mut bits);
    assert!(bits.is_empty());
    assert_eq!(enc.bits_written(), 2);
    enc.encode(&0, &sm, &mut bits);
    assert_eq!(bits, vec![false, true, true]);
    enc.encode(&2, &sm, &mut bits);
    enc.finish(&mut bits);
    let mut dec = Decoder::new();
    let mut pos = 0usize;
    assert_eq!(*dec.decode(&sm, &bits, &mut pos, BitOrder::Msb), 1);
    assert_eq!(*dec.decode(&sm, &bits, &mut pos, BitOrder::Msb), 0);
    assert_eq!(*dec.decode(&sm, &bits, &mut pos, BitOrder::Msb), 2);
    assert_eq!(pos, bits.len());
}

#[test]
fn round_trip_adaptive_text() {
    let text = "To be, or not to be, that is the question: Whether 'tis nobler in the mind to suffer";
    let (bits, written) = encode_adaptive(text);
    assert_eq!(written as usize, bits.len());
    let decoded = decode_adaptive(&bits, text.len());
    assert_eq!(decoded, text.as_bytes().to_vec());
    assert!(bits.len() < 8 * text.len());
}

#[test]
fn round_trip_repeated_symbol() {
    let text = "aaaaaaaaaaaaaaaaaaaaaaaaaaaaaaaaaaaaaaaaaaaaaaaaaaaaaaaaaaaaaaaaaaaaaaaaaaaaaaaaaaaaaaaa";
    let (bits, _) = encode_adaptive(text);
    let decoded = decode_adaptive(&bits, text.len());
    assert_eq!(decoded, text.as_bytes().to_vec());
}

#[test]
fn round_trip_reads_whole_stream() {
    let sm = VectorCountSymbolModel::new(vec!['x', 'y', 'z']);
    let msg = ['z', 'x', 'y', 'y', 'z', 'x', 'x', 'z'];
    let mut enc = Encoder::new();
    let mut bits = Vec::new();
    for c in msg.iter() {
        enc.encode(c, &sm, &mut bits);
    }
    enc.finish(&mut bits);
    let mut dec = Decoder::new();
    let mut pos = 0usize;
    let mut out = Vec::new();
    for _ in 0..msg.len() {
        out.push(*dec.decode(&sm, &bits, &mut pos, BitOrder::Msb));
    }
    assert_eq!(out, msg.to_vec());
    assert_eq!(pos, bits.len());
    assert_eq!(sm.total(), 3);
}

#[test]
fn finish_counts_pending_bits_once() {
    let mut sm = VectorCountSymbolModel::new(vec![0u8, 1, 2]);
    sm.set_count(&0, 3);
    sm.set_count(&1, 2);
    sm.set_count(&2, 3);
    let mut enc = Encoder::new();
    let mut bits = Vec::new();
    enc.encode(&1, &sm, &mut bits);
    assert_eq!(enc.bits_written(), 2);
    enc.finish(&mut bits);
    let mut expected = vec![true, false, false];
    expected.extend(std::iter::repeat(false).take(31));
    assert_eq!(bits, expected);
    assert_eq!(enc.bits_written(), 34);
    assert_eq!(enc.bits_written() as usize, bits.len());
    let mut dec = Decoder::new();
    let mut pos = 0usize;
    assert_eq!(*dec.decode(&sm, &bits, &mut pos, BitOrder::Msb), 1);
    assert_eq!(pos, bits.len());
}

#[test]
fn round_trip_ignores_padding() {
    let sm = VectorCountSymbolModel::new(vec!['a', 'b', 'c']);
    let mut enc = Encoder::new();
    let mut bits = Vec::new();
    enc.encode(&'b', &sm, &mut bits);
    enc.finish(&mut bits);
    assert_eq!(enc.bits_written() as usize, bits.len());
    let n = bits.len();
    bits.extend([true, true, false, true, true, true, false].iter());
    let mut dec = Decoder::new();
    let mut pos = 0usize;
    assert_eq!(*dec.decode(&sm, &bits, &mut pos, BitOrder::Msb), 'b');
    assert_eq!(pos, n);
    assert_eq!(dec.low(), enc.low());
    assert_eq!(dec.high(), enc.high());
}

#[test]
fn first_word_follows_bit_order() {
    let sm = VectorCountSymbolModel::new(vec!['a', 'b']);
    let mut bits = vec![true];
    bits.extend(std::iter::repeat(false).take(32));

    let mut msb = Decoder::new();
    let mut pos = 0usize;
    assert_eq!(*msb.decode(&sm, &bits, &mut pos, BitOrder::Msb), 'b');
    assert_eq!(pos, 33);
    assert_eq!(msb.buffer(), 0);

    let mut lsb = Decoder::new();
    let mut pos = 0usize;
    assert_eq!(*lsb.decode(&sm, &bits, &mut pos, BitOrder::Lsb), 'a');
    assert_eq!(pos, 33);
    assert_eq!(lsb.buffer(), 2);
}

#[test]
fn pending_getter_follows_second_order_shifts() {
    let mut sm = VectorCountSymbolModel::new(vec![0u8, 1, 2]);
    sm.set_count(&0, 3);
    sm.set_count(&1, 2);
    sm.set_count(&2, 3);
    let mut enc = Encoder::new();
    let mut bits = Vec::new();
    assert_eq!(enc.pending(), 0);
    enc.encode(&1, &sm, &mut bits);
    assert_eq!(enc.pending(), 2);
    enc.encode(&0, &sm, &mut bits);
    assert_eq!(enc.pending(), 0);
}
