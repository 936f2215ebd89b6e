use heatshrink_byte::{encode, Config, ConfigError, DecodeError, EncodeError, HeatshrinkDecoder};

fn compress(src: &[u8], cfg: &Config) -> Vec<u8> {
    let mut dst = vec![0u8; src.len() * 2 + 16];
    let n = encode(src, &mut dst, cfg).expect("room for the stream");
    dst.truncate(n);
    dst
}

fn decompress(input: &[u8], cfg: &Config, len: usize) -> Vec<u8> {
    let mut dec = HeatshrinkDecoder::new(input, cfg);
    let mut out = Vec::new();
    for _ in 0..len {
        out.push(dec.next().expect("a plaintext byte"));
    }
    out
}

fn round_trip(src: &[u8], cfg: &Config) {
    let packed = compress(src, cfg);
    assert_eq!(decompress(&packed, cfg, src.len()), src);
}

#[test]
fn config_accepts_bounds() {
    assert!(Config::new(1, 1).is_ok());
    assert!(Config::new(16, 16).is_ok());
    let c = Config::new(11, 4).unwrap();
    assert_eq!(c.window_sz2(), 11);
    assert_eq!(c.lookahead_sz2(), 4);
}

#[test]
fn config_rejects_out_of_range() {
    assert_eq!(Config::new(0, 4).unwrap_err(), ConfigError::WindowOutOfRange(0));
    assert_eq!(Config::new(17, 4).unwrap_err(), ConfigError::WindowOutOfRange(17));
    assert_eq!(Config::new(8, 0).unwrap_err(), ConfigError::LookaheadOutOfRange(0));
    assert_eq!(Config::new(8, 17).unwrap_err(), ConfigError::LookaheadOutOfRange(17));
    assert_eq!(Config::new(0, 0).unwrap_err(), ConfigError::WindowOutOfRange(0));
}

#[test]
fn config_validation_exhaustive() {
    for w in 0..=255u8 {
        for l in [0u8, 1, 8, 16, 17, 255] {
            let ok = (1..=16).contains(&w) && (1..=16).contains(&l);
            assert_eq!(Config::new(w, l).is_ok(), ok);
        }
    }
}

#[test]
fn config_builders() {
    let c = Config::default();
    assert_eq!((c.window_sz2(), c.lookahead_sz2()), (11, 4));
    let c = c.with_window(7).unwrap().with_lookahead(3).unwrap();
    assert_eq!((c.window_sz2(), c.lookahead_sz2()), (7, 3));
    assert_eq!(c.with_window(17).unwrap_err(), ConfigError::WindowOutOfRange(17));
    assert_eq!(c.with_lookahead(0).unwrap_err(), ConfigError::LookaheadOutOfRange(0));
}

#[test]
fn empty_input() {
    let cfg = Config::new(11, 4).unwrap();
    let packed = compress(&[], &cfg);
    assert!(packed.is_empty());
    let mut dec = HeatshrinkDecoder::new(&packed, &cfg);
    assert_eq!(dec.next(), Err(DecodeError::EndOfInput));
    assert_eq!(dec.next(), Err(DecodeError::EndOfInput));
}

#[test]
fn single_byte() {
    let cfg = Config::new(11, 4).unwrap();
    let packed = compress(&[0x42], &cfg);
    assert_eq!(packed, vec![0xA1, 0x00]);
    assert_eq!(decompress(&packed, &cfg, 1), vec![0x42]);
}

#[test]
fn all_zero_run() {
    let cfg = Config::new(11, 4).unwrap();
    let src = [0u8; 64];
    let packed = compress(&src, &cfg);
    assert_eq!(packed, vec![0x80, 0x00, 0x07, 0x80, 0x07, 0x80, 0x07, 0x80, 0x07, 0x00]);
    assert_eq!(decompress(&packed, &cfg, 64), src.to_vec());
}

#[test]
fn reference_decode_vector() {
    let cfg = Config::new(11, 4).unwrap();
    let mut src: Vec<u8> = vec![189, 160, 51, 163, 0, 0];
    let mut x: u32 = 7;
    while src.len() < 79 {
        x = x.wrapping_mul(1103515245).wrapping_add(12345);
        let v = if (x >> 16) % 3 == 0 { 0 } else { (x >> 20) as u8 };
        src.push(v);
    }
    let packed = compress(&src, &cfg);
    let mut dec = HeatshrinkDecoder::new(&packed, &cfg);
    for &expected in src.iter() {
        assert_eq!(dec.next(), Ok(expected));
    }
}

#[test]
fn short_repeats_compress() {
    let cfg = Config::new(8, 3).unwrap();
    let src: Vec<u8> = b"ab".iter().cycle().take(100).cloned().collect();
    let packed = compress(&src, &cfg);
    assert!(packed.len() < 100);
    assert_eq!(packed.len(), 22);
    assert_eq!(&packed[..3], &[0xB0, 0xD8, 0x80]);
    assert_eq!(decompress(&packed, &cfg, 100), src);
}

#[test]
fn overflow_detection() {
    let cfg = Config::new(11, 4).unwrap();
    let src: Vec<u8> = (0..1000u32).map(|i| (i * 7 % 251) as u8).collect();
    let mut dst = [0u8; 10];
    assert_eq!(encode(&src, &mut dst, &cfg), Err(EncodeError::OutputBufferTooSmall));
}

#[test]
fn exact_fit_and_one_short() {
    let cfg = Config::new(4, 3).unwrap();
    let src = b"abcabcabcabc";
    let mut dst = [0u8; 6];
    assert_eq!(encode(src, &mut dst, &cfg), Ok(6));
    assert_eq!(dst, [0xB0, 0xD8, 0xAC, 0x62, 0xF6, 0x30]);
    let mut small = [0u8; 5];
    assert_eq!(encode(src, &mut small, &cfg), Err(EncodeError::OutputBufferTooSmall));
}

#[test]
fn overlap_run_decodes_repeats() {
    // literal 'x', then a back-reference of distance 1 and length 5
    let cfg = Config::new(8, 4).unwrap();
    let stream = [0xBC, 0x00, 0x10];
    let mut dec = HeatshrinkDecoder::new(&stream, &cfg);
    for _ in 0..6 {
        assert_eq!(dec.next(), Ok(b'x'));
    }
    assert_eq!(dec.next(), Err(DecodeError::TruncatedStream));
}

#[test]
fn illegal_backref_is_reported() {
    let cfg = Config::new(8, 4).unwrap();
    let stream = [0x00, 0x00];
    let mut dec = HeatshrinkDecoder::new(&stream, &cfg);
    assert_eq!(dec.next(), Err(DecodeError::IllegalBackref));
    assert_eq!(dec.next(), Err(DecodeError::IllegalBackref));
}

#[test]
fn truncated_literal_is_reported() {
    let cfg = Config::new(8, 4).unwrap();
    let stream = [0x80];
    let mut dec = HeatshrinkDecoder::new(&stream, &cfg);
    assert_eq!(dec.next(), Err(DecodeError::TruncatedStream));
}

#[test]
fn reset_behaves_like_new() {
    let cfg = Config::new(8, 4).unwrap();
    let a = compress(b"hello hello hello", &cfg);
    let b = compress(b"zzzzzzzzzzzzzzzzzzzzzzzzzzzz", &cfg);
    let mut dec = HeatshrinkDecoder::new(&a, &cfg);
    assert_eq!(dec.next(), Ok(b'h'));
    assert_eq!(dec.next(), Ok(b'e'));
    assert!(dec.reset(&b));
    let mut fresh = HeatshrinkDecoder::new(&b, &cfg);
    for _ in 0..28 {
        assert_eq!(dec.next(), fresh.next());
    }
    assert_eq!(dec.next(), fresh.next());
}

#[test]
fn wide_fields_round_trip() {
    let text: Vec<u8> = b"the quick brown fox jumps over the lazy dog; "
        .iter()
        .cycle()
        .take(3000)
        .cloned()
        .collect();
    for (w, l) in [(12u8, 10u8), (16, 16), (9, 9), (1, 1), (2, 12), (16, 1)] {
        round_trip(&text, &Config::new(w, l).unwrap());
    }
}

#[test]
fn long_run_with_large_lookahead() {
    let src = vec![0x55u8; 5000];
    round_trip(&src, &Config::new(4, 12).unwrap());
    round_trip(&src, &Config::new(16, 16).unwrap());
}

#[test]
fn mixed_data_round_trip() {
    let mut src = Vec::new();
    let mut x: u32 = 1;
    for i in 0..4000u32 {
        x = x.wrapping_mul(1664525).wrapping_add(1013904223);
        src.push(if i % 5 == 0 { (x >> 24) as u8 } else { (i % 13) as u8 });
    }
    for (w, l) in [(11u8, 4u8), (8, 3), (5, 5), (13, 9)] {
        round_trip(&src, &Config::new(w, l).unwrap());
    }
}

#[test]
fn cloned_decoder_continues_alike() {
    let cfg = Config::new(6, 5).unwrap();
    let src: Vec<u8> = b"abracadabra, abracadabra!".to_vec();
    let packed = compress(&src, &cfg);
    let mut dec = HeatshrinkDecoder::new(&packed, &cfg);
    for &expected in &src[..7] {
        assert_eq!(dec.next(), Ok(expected));
    }
    let mut copy = dec.clone();
    for &expected in &src[7..] {
        assert_eq!(dec.next(), Ok(expected));
        assert_eq!(copy.next(), Ok(expected));
    }
}
