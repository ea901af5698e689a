use lzari::LZARIContext;

fn encode(data: &[u8]) -> Vec<u8> {
    LZARIContext::new(data).encode()
}

fn decode(data: &[u8]) -> Vec<u8> {
    LZARIContext::new(data).decode()
}

fn pseudo_random(n: usize) -> Vec<u8> {
    let mut x: u64 = 1;
    let mut out = Vec::with_capacity(n);
    for _ in 0..n {
        x = (1103515245 * x + 12345) % (1 << 31);
        out.push((x & 0xff) as u8);
    }
    out
}

fn checksum(data: &[u8]) -> u32 {
    data.iter().map(|b| u32::from(*b)).sum::<u32>() % 65536
}

#[test]
fn empty_input_gives_prefix_and_end_bits() {
    let packed = encode(b"");
    assert_eq!(packed, vec![0, 0, 0, 0, 64]);
    assert!(packed.len() >= 5 && packed.len() <= 8);
    assert_eq!(decode(&packed), Vec::<u8>::new());
}

#[test]
fn single_byte_round_trips() {
    let packed = encode(b"A");
    assert_eq!(&packed[..4], &[1, 0, 0, 0]);
    assert_eq!(packed, vec![1, 0, 0, 0, 202, 128]);
    let text = decode(&packed);
    assert_eq!(text.len(), 1);
    assert_eq!(text, b"A".to_vec());
}

#[test]
fn run_of_4096_round_trips() {
    let data = vec![b'A'; 4096];
    let packed = encode(&data);
    assert_eq!(&packed[..8], &[0, 16, 0, 0, 202, 49, 40, 255]);
    assert_eq!(packed.len(), 118);
    assert_eq!(checksum(&packed), 27834);
    assert_eq!(decode(&packed), data);
}

#[test]
fn run_of_10000_round_trips_and_shrinks() {
    let data = vec![b'A'; 10000];
    let packed = encode(&data);
    assert_eq!(packed.len(), 254);
    assert!(packed.len() < data.len() / 30);
    assert_eq!(decode(&packed), data);
}

#[test]
fn all_byte_values_round_trip() {
    let data: Vec<u8> = (0..=255u8).collect();
    let packed = encode(&data);
    assert_eq!(&packed[..8], &[0, 1, 0, 0, 255, 254, 169, 214]);
    assert_eq!(packed.len(), 285);
    assert_eq!(decode(&packed), data);
}

#[test]
fn pangram_round_trips() {
    let data = b"The quick brown fox jumps over the lazy dog.\n";
    let packed = encode(data);
    assert_eq!(
        packed,
        vec![
            45, 0, 0, 0, 187, 62, 29, 135, 25, 215, 44, 73, 114, 188, 191, 3, 153, 179, 35, 76,
            145, 136, 5, 86, 244, 117, 152, 27, 28, 183, 123, 48, 104, 211, 71, 156, 202, 81, 118,
            202, 222, 101, 141, 39, 124, 32, 42, 200
        ]
    );
    assert_eq!(decode(&packed), data.to_vec());
}

#[test]
fn pseudo_random_64k_round_trips() {
    let data = pseudo_random(65536);
    let packed = encode(&data);
    assert_eq!(&packed[..8], &[0, 0, 1, 0, 120, 15, 64, 171]);
    assert_eq!(packed.len(), 1892);
    assert_eq!(checksum(&packed), 40523);
    assert_eq!(packed[packed.len() - 1], 228);
    assert_eq!(decode(&packed), data);
}

#[test]
fn scrambled_payload_round_trips() {
    let mut x: u32 = 12345;
    let mut data = Vec::new();
    for _ in 0..65536 {
        x ^= x << 13;
        x ^= x >> 17;
        x ^= x << 5;
        data.push((x >> 11) as u8);
    }
    let packed = encode(&data);
    assert_eq!(decode(&packed), data);
}

#[test]
fn alternating_pair_uses_overlapping_copies() {
    let data = b"ab".repeat(100);
    let packed = encode(&data);
    assert_eq!(
        packed,
        vec![200, 0, 0, 0, 176, 168, 79, 136, 194, 189, 213, 127, 171, 208, 168]
    );
    assert_eq!(decode(&packed), data);
}

#[test]
fn spaces_match_the_initial_window() {
    let data = vec![b' '; 200];
    let packed = encode(&data);
    assert_eq!(
        packed,
        vec![200, 0, 0, 0, 0, 189, 225, 127, 255, 255, 208, 196, 16]
    );
    assert_eq!(decode(&packed), data);
}

#[test]
fn prefix_is_the_length_in_little_endian() {
    for n in [0usize, 1, 2, 59, 60, 61, 255, 256, 257, 4095, 4096, 65535, 65536, 70000] {
        let data = vec![7u8; n];
        let packed = encode(&data);
        assert_eq!(&packed[..4], &(n as u32).to_le_bytes());
    }
}

#[test]
fn lengths_around_the_lookahead_round_trip() {
    for n in [1usize, 2, 3, 58, 59, 60, 61, 62, 119, 120, 121, 4035, 4036, 4037, 4096, 4097, 8200] {
        let data: Vec<u8> = (0..n).map(|i| (i * i % 7 + i % 3) as u8).collect();
        let packed = encode(&data);
        assert_eq!(decode(&packed), data, "length {n}");
    }
}

#[test]
fn text_with_long_repeats_round_trips() {
    let mut data = Vec::new();
    for i in 0..400 {
        data.extend_from_slice(b"the rain in spain stays mainly in the plain; ");
        data.push((i % 251) as u8);
    }
    let packed = encode(&data);
    assert!(packed.len() < data.len() / 4);
    assert_eq!(decode(&packed), data);
}

#[test]
fn decoding_yields_the_stated_length_whatever_follows() {
    let text = decode(&[5, 0, 0, 0]);
    assert_eq!(text.len(), 5);
    let text = decode(&[100, 0, 0, 0, 0, 1, 2, 3]);
    assert_eq!(text.len(), 100);
    let text = decode(&[0, 1, 0, 0, 0xff, 0xff, 0xff]);
    assert_eq!(text.len(), 256);
    let text = decode(&[0, 0, 0, 0]);
    assert_eq!(text.len(), 0);
}
