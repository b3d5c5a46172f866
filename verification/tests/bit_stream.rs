use huffman::bit_stream::BitReader;
use huffman::bit_stream::BitWriter;

#[test]
fn write_and_read_single_bits() {
    let mut w = BitWriter::new();
    let pattern = vec![true, false, true, true, false, false, true, false, true];
    for &b in &pattern {
        w.write_bit(b);
    }
    assert_eq!(w.bit_count(), 9);
    let mut r = w.to_reader();
    let got = r.read_bits_vec(9).unwrap();
    assert_eq!(got, pattern);
    assert_eq!(r.read_bit(), None);
}

#[test]
fn write_u8_bit_pattern_is_lsb_first() {
    let mut w = BitWriter::new();
    w.write_u8(0b1011_0010);
    assert_eq!(w.bit_count(), 8);
    let mut r = w.to_reader();
    let got = r.read_bits_vec(8).unwrap();
    // least-significant bit first
    assert_eq!(got, vec![false, true, false, false, true, true, false, true]);
}

#[test]
fn u8_and_u16_round_trip() {
    let mut w = BitWriter::new();
    w.write_u8(0xA5);
    w.write_u16(0xBEEF);
    w.write_u8(0);
    w.write_u16(65535);
    let mut r = w.to_reader();
    assert_eq!(r.read_u8(), Some(0xA5));
    assert_eq!(r.read_u16(), Some(0xBEEF));
    assert_eq!(r.read_u8(), Some(0));
    assert_eq!(r.read_u16(), Some(65535));
    assert_eq!(r.read_bit(), None);
}

#[test]
fn reads_past_end_signal_end_of_stream() {
    let mut w = BitWriter::new();
    w.write_u8(0x7F);
    let mut r = w.to_reader();
    assert_eq!(r.read_u16(), None);
    assert_eq!(r.read_u8(), Some(0x7F));
    assert_eq!(r.read_u8(), None);
    assert_eq!(r.read_bit(), None);
    let mut empty = BitWriter::new().to_reader();
    assert_eq!(empty.read_bit(), None);
}

#[test]
fn failed_read_consumes_nothing() {
    let mut w = BitWriter::new();
    w.write_bit(true);
    w.write_bit(false);
    w.write_bit(true);
    let mut r = w.to_reader();
    assert_eq!(r.read_u8(), None);
    assert_eq!(r.read_bits_vec(4), None);
    assert_eq!(r.read_bits_vec(3), Some(vec![true, false, true]));
}

#[test]
fn progress_skips_bits() {
    let mut w = BitWriter::new();
    w.write_bits_vec(&vec![true, true, false, false, true]);
    let mut r = w.to_reader();
    r.progress(3);
    assert_eq!(r.read_bit(), Some(false));
    assert_eq!(r.read_bit(), Some(true));
    assert_eq!(r.read_bit(), None);
}

#[test]
fn forked_cursors_are_independent() {
    let mut w = BitWriter::new();
    w.write_u8(0b0000_1111);
    let mut a: BitReader = w.to_reader();
    let mut b = a.fork();
    b.progress(4);
    assert_eq!(a.read_bit(), Some(true));
    assert_eq!(b.read_bit(), Some(false));
    assert_eq!(a.bit_position, 1);
    assert_eq!(b.bit_position, 5);
}

#[test]
fn words_spanning_boundaries_keep_bits() {
    let mut w = BitWriter::new();
    let mut pattern = Vec::new();
    for i in 0..150 {
        pattern.push(i % 3 == 0);
    }
    w.write_bits_vec(&pattern);
    let mut r = w.to_reader();
    assert_eq!(r.read_bits_vec(150).unwrap(), pattern);
}
