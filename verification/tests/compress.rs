use lzallright::lzo::{compress, decompress, encode_literal_run, encode_lookback_match, find_better_match, Dict, EResult};
use lzallright::lzokay::{map_result, EResult as Status};

fn roundtrip(data: &[u8]) {
    let mut dict = Dict::new();
    let mut buf = vec![0u8; data.len() + data.len() / 16 + 64 + 3];
    let n = compress(data, &mut buf, &mut dict).expect("Compress failed");
    let mut out = vec![0u8; data.len()];
    assert_eq!(decompress(&buf[..n], &mut out), Ok(data.len()));
    assert_eq!(out, data);
}

#[test]
fn regression_m4_lookbehind_overrun() {
    let mut dict = Dict::new();
    let compressed = {
        let mut buf = vec![0u8; 67];
        let len = compress(&[], &mut buf, &mut dict).expect("Compress failed");
        buf.truncate(len);
        buf
    };
    let _ = decompress(&compressed, &mut [0u8; 0]);
}

#[test]
fn empty_input_stream_does_not_decode() {
    let mut dict = Dict::new();
    let mut buf = vec![0u8; 67];
    let len = compress(&[], &mut buf, &mut dict).unwrap();
    assert_eq!(&buf[..len], &[17u8, 17, 0, 0]);
    assert_eq!(decompress(&buf[..len], &mut [0u8; 0]), Err(EResult::LookbehindOverrun));
}

#[test]
fn single_byte_stream() {
    let mut dict = Dict::new();
    let mut buf = [9u8; 8];
    let len = compress(b"x", &mut buf, &mut dict).unwrap();
    assert_eq!(&buf[..len], &[18u8, b'x', 17, 0, 0]);
    assert_eq!(&buf[len..], &[9u8; 3]);
}

#[test]
fn roundtrips() {
    roundtrip(b"a");
    roundtrip(b"abababababababababababababab");
    roundtrip(&[0u8; 10000]);
    let mixed: Vec<u8> = (0..70000u32).map(|i| ((i * 2654435761u32) >> 13) as u8 ^ (i % 251) as u8).collect();
    roundtrip(&mixed);
    let text: Vec<u8> = b"the quick brown fox jumps over the lazy dog; ".iter().cycle().take(100000).cloned().collect();
    roundtrip(&text);
    let long_literals: Vec<u8> = (0..600u32).map(|i| (i * 7 + i / 3) as u8).collect();
    roundtrip(&long_literals);
}

#[test]
fn output_too_small() {
    let mut dict = Dict::new();
    let data = b"some text that needs more than four bytes";
    let mut buf = [0u8; 4];
    assert_eq!(compress(data, &mut buf, &mut dict), Err(EResult::OutputOverrun));
    let mut buf = [0u8; 0];
    assert_eq!(compress(b"", &mut buf, &mut dict), Err(EResult::OutputOverrun));
}

#[test]
fn literal_run_headers() {
    // First run of the stream: 17 + length.
    let mut out = [0u8; 8];
    let mut outp = 0;
    assert_eq!(encode_literal_run(&mut out, &mut outp, b"abc"), Ok(()));
    assert_eq!(outp, 4);
    assert_eq!(&out[..4], &[20u8, b'a', b'b', b'c']);

    // Short run after a copy: announced in the copy's low bits.
    let mut out = [0x40u8, 0x05, 0, 0, 0];
    let mut outp = 2;
    assert_eq!(encode_literal_run(&mut out, &mut outp, b"xy"), Ok(()));
    assert_eq!(outp, 4);
    assert_eq!(out, [0x42u8, 0x05, b'x', b'y', 0]);

    // Run of 4 to 18 bytes: length - 3.
    let mut out = [0u8; 16];
    let mut outp = 2;
    assert_eq!(encode_literal_run(&mut out, &mut outp, b"abcdefgh"), Ok(()));
    assert_eq!(outp, 11);
    assert_eq!(out[2], 5);

    // Longer run: zero, then the extended length of length - 18.
    let lit = [1u8; 300];
    let mut out = vec![0u8; 400];
    let mut outp = 2;
    assert_eq!(encode_literal_run(&mut out, &mut outp, &lit), Ok(()));
    assert_eq!(&out[2..5], &[0u8, 0, 27]);
    assert_eq!(outp, 5 + 300);

    // No room.
    let mut out = [0u8; 3];
    let mut outp = 0;
    assert_eq!(encode_literal_run(&mut out, &mut outp, b"abc"), Err(EResult::OutputOverrun));
}

#[test]
fn copy_instructions() {
    let enc = |len: usize, off: usize, last: usize| {
        let mut out = vec![0u8; 16];
        let mut outp = 0;
        encode_lookback_match(&mut out, &mut outp, len, off, last).unwrap();
        out.truncate(outp);
        out
    };
    // M1: 2 bytes within 1kB.
    assert_eq!(enc(2, 6, 1), vec![0x04, 0x01]);
    // M2: 3..8 bytes within 2kB.
    assert_eq!(enc(5, 10, 0), vec![0x80 | 0x04, 0x01]);
    // M1 after a run of 4 or more literals: 3 bytes from 2..3kB.
    assert_eq!(enc(3, 2049 + 5, 4), vec![0x04, 0x01]);
    // M3: within 16kB.
    assert_eq!(enc(20, 3000, 0), vec![32 + 18, (2999 % 64 * 4) as u8, (2999 / 64) as u8]);
    assert_eq!(enc(40, 100, 0), vec![32, 7, (99 % 64 * 4) as u8, (99 / 64) as u8]);
    // M4: beyond 16kB.
    assert_eq!(enc(5, 20000, 0), vec![16 + 3, ((20000 - 16384) % 64 * 4) as u8, ((20000 - 16384) / 64) as u8]);
    assert_eq!(enc(30, 40000, 0), vec![16 + 8, 21, ((40000 - 16384) % 64 * 4) as u8, ((40000 - 16384) / 64 % 256) as u8]);

    let mut out = [0u8; 2];
    let mut outp = 1;
    assert_eq!(encode_lookback_match(&mut out, &mut outp, 5, 10, 0), Err(EResult::OutputOverrun));
}

#[test]
fn better_matches() {
    let mut best = [0usize; 34];
    best[4] = 100;
    let (mut len, mut off) = (5usize, 3000usize);
    find_better_match(best, &mut len, &mut off);
    assert_eq!((len, off), (4, 100));

    let (mut len, mut off) = (5usize, 2000usize);
    find_better_match(best, &mut len, &mut off);
    assert_eq!((len, off), (5, 2000));

    let mut best = [0usize; 34];
    best[8] = 7000;
    best[10] = 10;
    let (mut len, mut off) = (10usize, 20000usize);
    find_better_match(best, &mut len, &mut off);
    assert_eq!((len, off), (8, 7000));

    let mut best = [0usize; 34];
    best[19] = 300;
    best[18] = 16000;
    let (mut len, mut off) = (20usize, 30000usize);
    find_better_match(best, &mut len, &mut off);
    assert_eq!((len, off), (19, 300));
}

#[test]
fn lzokay_status_mapping() {
    assert_eq!(map_result(Status::Success, 12), Ok(12));
    assert_eq!(map_result(Status::LookbehindOverrun, 3), Err(EResult::LookbehindOverrun));
    assert_eq!(map_result(Status::OutputOverrun, 3), Err(EResult::OutputOverrun));
    assert_eq!(map_result(Status::InputOverrun, 3), Err(EResult::InputOverrun));
    assert_eq!(map_result(Status::InputNotConsumed, 7), Err(EResult::InputNotConsumed(7)));
    assert_eq!(map_result(Status::Error, 3), Err(EResult::Error));
}

#[test]
fn worst_case_buffer_suffices() {
    // Data with few repeats: the stream is barely longer than the input.
    let mut x: u32 = 0x1234_5678;
    let data: Vec<u8> = (0..50000)
        .map(|_| {
            x ^= x << 13;
            x ^= x >> 17;
            x ^= x << 5;
            (x >> 24) as u8
        })
        .collect();
    for len in [0usize, 1, 2, 3, 4, 17, 19, 300, 5000, 50000] {
        let src = &data[..len];
        let mut dict = Dict::new();
        let mut buf = vec![0u8; len + len / 16 + 5];
        let n = compress(src, &mut buf, &mut dict).expect("Compress failed");
        assert!(n <= len + len / 16 + 5);
        if len > 0 {
            let mut out = vec![0u8; len];
            assert_eq!(decompress(&buf[..n], &mut out), Ok(len));
            assert_eq!(&out[..], src);
        }
    }
}

#[test]
fn copy_without_room_leaves_the_buffer() {
    let mut out = [0u8; 2];
    let mut outp = 2;
    assert_eq!(encode_lookback_match(&mut out, &mut outp, 3, 1, 0), Err(EResult::OutputOverrun));
    assert_eq!(out, [0, 0]);
    assert_eq!(outp, 2);
    // An M3 copy whose first byte fits but whose distance bytes do not.
    let mut out = [0u8; 2];
    let mut outp = 0;
    assert_eq!(encode_lookback_match(&mut out, &mut outp, 20, 3000, 0), Err(EResult::OutputOverrun));
    assert_eq!(outp, 1);
    assert_eq!(out, [32 + 18, 0]);
}

#[test]
fn repeated_byte_stream() {
    let mut dict = Dict::new();
    let mut out = [0u8; 75];
    let n = compress(&[5u8; 8], &mut out, &mut dict).unwrap();
    assert_eq!(&out[..n], &[0x12, 0x05, 0xC0, 0x00, 0x11, 0x00, 0x00]);
    assert!(out[n..].iter().all(|&b| b == 0));
}

#[test]
fn output_does_not_depend_on_the_dictionary() {
    let data: Vec<u8> = b"abracadabra, abracadabra! ".iter().cycle().take(3000).cloned().collect();
    let mut fresh = Dict::new();
    let mut out1 = vec![0u8; 4000];
    let n1 = compress(&data, &mut out1, &mut fresh).unwrap();
    let mut used = Dict::new();
    let mut scratch = vec![0u8; 70000];
    let other: Vec<u8> = (0..60000u32).map(|i| (i % 13) as u8).collect();
    compress(&other, &mut scratch, &mut used).unwrap();
    let mut out2 = vec![0u8; 4000];
    let n2 = compress(&data, &mut out2, &mut used).unwrap();
    assert_eq!(&out1[..n1], &out2[..n2]);
    // A buffer one byte short of the stream fails, one of its length succeeds.
    let mut short = vec![0u8; n1 - 1];
    assert_eq!(compress(&data, &mut short, &mut used), Err(EResult::OutputOverrun));
    let mut exact = vec![0u8; n1];
    assert_eq!(compress(&data, &mut exact, &mut used), Ok(n1));
}
