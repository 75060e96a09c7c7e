use lzallright::lzallright::{EResult, LZOError};
use lzallright::LZOCompressor;
use lzallright::lzo::EResult as Codec;

const LOREM: &[u8] = b"Lorem ipsum dolor sit amet, consectetur adipiscing elit, sed do eiusmod \
tempor incididunt ut labore et dolore magna aliqua. Ut enim ad minim veniam, quis nostrud \
exercitation ullamco laboris nisi ut aliquip ex ea commodo consequat. Duis aute irure dolor in \
reprehenderit in voluptate velit esse cillum dolore eu fugiat nulla pariatur. Excepteur sint \
occaecat cupidatat non proident, sunt in culpa qui officia deserunt mollit anim id est laborum.\n\
Lorem ipsum dolor sit amet, consectetur adipiscing elit, sed do eiusmod tempor incididunt ut \
labore et dolore magna aliqua. Ut enim ad minim veniam, quis nostrud exercitation ullamco \
laboris nisi ut aliquip ex ea commodo consequat.\n";

#[test]
fn test_roundtrip() {
    let mut comp = LZOCompressor::new();
    let compressed = comp.compress(LOREM).unwrap();
    let out = LZOCompressor::decompress(&compressed, Some(LOREM.len())).unwrap();
    assert_eq!(out, LOREM);
}

#[test]
fn test_decompress_invalid_data() {
    let err = LZOCompressor::decompress(LOREM, None).unwrap_err();
    assert!(matches!(err, LZOError::Failed(_)));
}

#[test]
fn test_big_compression_ratio() {
    let mut comp = LZOCompressor::new();
    let data = [0u8; 65536];
    let compressed = comp.compress(&data[..]).unwrap();
    let out = LZOCompressor::decompress(&compressed, None).unwrap();
    assert_eq!(out, data);
}

#[test]
fn compressor_is_reusable() {
    let mut comp = LZOCompressor::default();
    let first = comp.compress(LOREM).unwrap();
    let second = comp.compress(LOREM).unwrap();
    assert_eq!(first, second);
    let other = comp.compress(b"abcabcabcabcabcabcabcabc").unwrap();
    assert_eq!(LZOCompressor::decompress(&other, None).unwrap(), b"abcabcabcabcabcabcabcabc");
}

#[test]
fn repetitive_input_compresses() {
    let mut comp = LZOCompressor::new();
    let data: Vec<u8> = (0..4000u32).map(|i| (i % 7) as u8).collect();
    let compressed = comp.compress(&data).unwrap();
    assert!(compressed.len() < data.len() / 10);
    assert_eq!(LZOCompressor::decompress(&compressed, None).unwrap(), data);
}

#[test]
fn small_size_hint_grows() {
    let mut comp = LZOCompressor::new();
    let compressed = comp.compress(LOREM).unwrap();
    assert_eq!(LZOCompressor::decompress(&compressed, Some(0)).unwrap(), LOREM);
    assert_eq!(LZOCompressor::decompress(&compressed, Some(1)).unwrap(), LOREM);
    assert_eq!(LZOCompressor::decompress(&compressed, Some(1 << 16)).unwrap(), LOREM);
}

#[test]
fn trailing_garbage_hands_out_the_data() {
    let src = [22u8, b'h', b'e', b'l', b'l', b'o', 0x11, 0x00, 0x00, 0xFF];
    match LZOCompressor::decompress(&src, None) {
        Err(LZOError::InputNotConsumed(data)) => assert_eq!(data, b"hello"),
        other => panic!("unexpected result {:?}", other),
    }
}

#[test]
fn decompress_errors_carry_their_kind() {
    assert!(matches!(LZOCompressor::decompress(&[], None), Err(LZOError::Failed(EResult::InputOverrun))));
    assert!(matches!(
        LZOCompressor::decompress(&[0x12, 0xAA, 0xC0, 0xFF], None),
        Err(LZOError::Failed(EResult::LookbehindOverrun))
    ));
    assert!(matches!(LZOCompressor::decompress(&[0x12, b'a', 0x12, 0x00, 0x00], Some(4)), Err(LZOError::Failed(EResult::Error))));
}

#[test]
fn error_kinds_convert() {
    assert_eq!(EResult::from(&Codec::LookbehindOverrun), EResult::LookbehindOverrun);
    assert_eq!(EResult::from(&Codec::OutputOverrun), EResult::OutputOverrun);
    assert_eq!(EResult::from(&Codec::InputOverrun), EResult::InputOverrun);
    assert_eq!(EResult::from(&Codec::Error), EResult::Error);
    assert_eq!(EResult::from(&Codec::InputNotConsumed(12)), EResult::InputNotConsumed);
}

#[test]
fn empty_input_compresses_to_the_bare_stream() {
    let mut comp = LZOCompressor::new();
    assert_eq!(comp.compress(b"").unwrap(), vec![17u8, 17, 0, 0]);
}
