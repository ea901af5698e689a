use lzari::coder::{Decoder, Encoder};
use lzari::model::{PositionModel, SymbolModel};

fn models() -> (SymbolModel, PositionModel) {
    let mut s = SymbolModel::new();
    s.start_model();
    let mut p = PositionModel::new();
    p.start_model();
    (s, p)
}

#[test]
fn first_symbol_narrows_and_scales_the_range() {
    let (mut symbols, positions) = models();
    let mut enc = Encoder::new(Vec::new());
    assert_eq!((enc.low(), enc.high()), (0, 131072));
    enc.encode_char(&mut symbols, 65);
    assert_eq!((enc.low(), enc.high()), (12416, 65920));
    assert_eq!(symbols.sym_of(65), 1);
    enc.encode_position(&positions, 0);
    assert_eq!((enc.low(), enc.high()), (36864, 131072));
    enc.encode_end();
    assert_eq!(enc.into_bytes(), vec![203, 1, 64]);
}

#[test]
fn end_of_empty_stream_is_zero_one() {
    let mut enc = Encoder::new(vec![1, 2, 3]);
    enc.encode_end();
    assert_eq!(enc.into_bytes(), vec![1, 2, 3, 64]);
}

#[test]
fn decoder_reads_back_what_the_encoder_wrote() {
    let (mut symbols, positions) = models();
    let mut enc = Encoder::new(Vec::new());
    enc.encode_char(&mut symbols, 65);
    enc.encode_position(&positions, 0);
    enc.encode_end();
    let bytes = enc.into_bytes();

    let (mut symbols, positions) = models();
    let mut dec = Decoder::new(&bytes, 0);
    assert_eq!(dec.value(), 0);
    dec.start_decode();
    assert_eq!(dec.value(), (203 << 9) | (1 << 1));
    assert_eq!(dec.decode_char(&mut symbols), 65);
    assert_eq!((dec.low(), dec.high()), (12416, 65920));
    assert_eq!(dec.decode_position(&positions), 0);
    assert_eq!((dec.low(), dec.high()), (36864, 131072));
}

#[test]
fn range_stays_ordered_and_value_inside() {
    let mut x: u32 = 88172645;
    let mut script = Vec::new();
    for i in 0..20000u32 {
        x ^= x << 13;
        x ^= x >> 17;
        x ^= x << 5;
        if i % 4 == 3 {
            script.push((256 + (x % 58) as usize, Some((x >> 8) as usize % 4096)));
        } else {
            script.push(((x % 40) as usize, None));
        }
    }
    let (mut symbols, positions) = models();
    let mut enc = Encoder::new(Vec::new());
    for (ch, pos) in &script {
        enc.encode_char(&mut symbols, *ch);
        assert!(enc.low() < enc.high() && enc.high() <= 131072);
        if let Some(p) = pos {
            enc.encode_position(&positions, *p);
            assert!(enc.low() < enc.high() && enc.high() <= 131072);
        }
    }
    enc.encode_end();
    let bytes = enc.into_bytes();

    let (mut symbols, positions) = models();
    let mut dec = Decoder::new(&bytes, 0);
    dec.start_decode();
    for (ch, pos) in &script {
        assert_eq!(dec.decode_char(&mut symbols), *ch);
        assert!(dec.low() <= dec.value() && dec.value() < dec.high() && dec.high() <= 131072);
        if let Some(p) = pos {
            assert_eq!(dec.decode_position(&positions), *p);
            assert!(dec.low() <= dec.value() && dec.value() < dec.high() && dec.high() <= 131072);
        }
    }
}

#[test]
fn decoder_keeps_its_range_on_any_bytes() {
    let bytes: Vec<u8> = (0..500u32).map(|i| (i * 37 + 11) as u8).collect();
    let (mut symbols, positions) = models();
    let mut dec = Decoder::new(&bytes, 0);
    dec.start_decode();
    for i in 0..5000 {
        let c = dec.decode_char(&mut symbols);
        assert!(c < 314);
        assert!(dec.low() <= dec.value() && dec.value() < dec.high() && dec.high() <= 131072);
        if i % 5 == 0 {
            let p = dec.decode_position(&positions);
            assert!(p < 4096);
            assert!(dec.low() <= dec.value() && dec.value() < dec.high());
        }
    }
}
