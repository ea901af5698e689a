use lzari::bitstream::{BitReader, BitWriter};

#[test]
fn bits_fill_bytes_from_the_top() {
    let mut w = BitWriter::new(Vec::new());
    for bit in [true, false, true, true, false, false, true, false] {
        w.put_bit(bit);
    }
    w.put_bit(true);
    assert_eq!(w.into_bytes(), vec![0xB2]);
}

#[test]
fn flushing_pads_with_seven_zero_bits() {
    let mut w = BitWriter::new(vec![9, 8]);
    w.put_bit(true);
    w.flush_bit_buffer();
    assert_eq!(w.into_bytes(), vec![9, 8, 0x80]);

    let mut w = BitWriter::new(Vec::new());
    w.flush_bit_buffer();
    assert_eq!(w.into_bytes(), Vec::<u8>::new());

    let mut w = BitWriter::new(Vec::new());
    for _ in 0..2 {
        w.put_bit(true);
    }
    w.flush_bit_buffer();
    assert_eq!(w.into_bytes(), vec![0xC0]);
}

#[test]
fn reader_hands_out_bits_from_the_top() {
    let bytes = [0xB2u8, 0x01];
    let mut r = BitReader::new(&bytes, 0);
    let mut seen = Vec::new();
    for _ in 0..16 {
        seen.push(r.get_bit());
    }
    assert_eq!(
        seen,
        vec![
            true, false, true, true, false, false, true, false, false, false, false, false, false,
            false, false, true
        ]
    );
}

#[test]
fn reader_gives_ones_past_the_end() {
    let bytes = [0x00u8];
    let mut r = BitReader::new(&bytes, 0);
    for _ in 0..8 {
        assert!(!r.get_bit());
    }
    for _ in 0..100 {
        assert!(r.get_bit());
    }
    let mut r = BitReader::new(&bytes, 1);
    assert!(r.get_bit());
    let empty: [u8; 0] = [];
    let mut r = BitReader::new(&empty, 0);
    for _ in 0..20 {
        assert!(r.get_bit());
    }
}

#[test]
fn reader_starts_at_the_given_byte() {
    let bytes = [0xFFu8, 0xFF, 0x40];
    let mut r = BitReader::new(&bytes, 2);
    assert!(!r.get_bit());
    assert!(r.get_bit());
    assert!(!r.get_bit());
}

#[test]
fn written_bits_read_back() {
    let bits: Vec<bool> = (0..1000).map(|i| (i * i + i / 3) % 5 < 2).collect();
    let mut w = BitWriter::new(Vec::new());
    for b in &bits {
        w.put_bit(*b);
    }
    w.flush_bit_buffer();
    let bytes = w.into_bytes();
    assert_eq!(bytes.len(), (1000 + 7) / 8);
    let mut r = BitReader::new(&bytes, 0);
    for b in &bits {
        assert_eq!(r.get_bit(), *b);
    }
}
