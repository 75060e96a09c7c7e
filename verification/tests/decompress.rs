use lzallright::lzo::{decompress, EResult};

// Malformed inputs that once made the decoder read past its input or its
// output: each must be refused with an error, without a panic.

#[test]
fn regression_m1_zero_scan_oob() {
    let _ = decompress(&[0x00, 0x00, 0x00, 0x00], &mut [0u8; 1024]);
}

#[test]
fn regression_m3_zero_scan_oob() {
    let _ = decompress(&[0x12, 0xAA, 0x20, 0x00], &mut [0u8; 1024]);
}

#[test]
fn regression_m4_zero_scan_oob() {
    let _ = decompress(&[0x12, 0xAA, 0x10, 0x00], &mut [0u8; 1024]);
}

#[test]
fn regression_m2_lookbehind_overrun() {
    let _ = decompress(&[0x12, 0xAA, 0xC0, 0xFF], &mut [0u8; 1024]);
}

#[test]
fn zero_scan_reaching_the_end_is_an_input_overrun() {
    assert_eq!(decompress(&[0x00, 0x00, 0x00, 0x00], &mut [0u8; 1024]), Err(EResult::InputOverrun));
    assert_eq!(decompress(&[0x12, 0xAA, 0x20, 0x00], &mut [0u8; 1024]), Err(EResult::InputOverrun));
    assert_eq!(decompress(&[0x12, 0xAA, 0x10, 0x00], &mut [0u8; 1024]), Err(EResult::InputOverrun));
}

#[test]
fn distance_before_the_start_is_a_lookbehind_overrun() {
    assert_eq!(decompress(&[0x12, 0xAA, 0xC0, 0xFF], &mut [0u8; 1024]), Err(EResult::LookbehindOverrun));
}

#[test]
fn short_input_is_an_input_overrun() {
    assert_eq!(decompress(&[], &mut [0u8; 16]), Err(EResult::InputOverrun));
    assert_eq!(decompress(&[0x11, 0x00], &mut [0u8; 16]), Err(EResult::InputOverrun));
}

#[test]
fn terminator_alone_decodes_to_nothing() {
    let mut out = [7u8; 4];
    assert_eq!(decompress(&[0x11, 0x00, 0x00], &mut out), Ok(0));
    assert_eq!(out, [7u8; 4]);
}

#[test]
fn first_byte_literal_run() {
    // 17 + 5 literals, then the terminator.
    let src = [22u8, b'h', b'e', b'l', b'l', b'o', 0x11, 0x00, 0x00];
    let mut out = [0u8; 8];
    assert_eq!(decompress(&src, &mut out), Ok(5));
    assert_eq!(&out[..5], b"hello");
    assert_eq!(&out[5..], &[0u8; 3]);
}

#[test]
fn output_too_small_is_an_output_overrun() {
    let src = [22u8, b'h', b'e', b'l', b'l', b'o', 0x11, 0x00, 0x00];
    let mut out = [0u8; 4];
    assert_eq!(decompress(&src, &mut out), Err(EResult::OutputOverrun));
    assert_eq!(out, [0u8; 4]);
}

#[test]
fn overlapping_match_repeats_the_pattern() {
    // "ab" as a first-byte literal run of 2 (state 2), then an M1 copy of 2
    // bytes from distance 2 with no trailing literals, then an M2 copy of 4
    // bytes from distance 1, then the terminator.
    // M1: distance = (H << 2) + D + 1 = 2 -> D = 1, H = 0: byte 0b0000_0100.
    // M2 (64..127): length 3 + L = 4 -> L = 1, distance = (H << 3) + D + 1 = 1.
    let src = [19u8, b'a', b'b', 0x04, 0x00, 0x60, 0x00, 0x11, 0x00, 0x00];
    let mut out = [0u8; 16];
    assert_eq!(decompress(&src, &mut out), Ok(8));
    assert_eq!(&out[..8], b"ababbbbb");
}

#[test]
fn trailing_bytes_are_reported() {
    let src = [22u8, b'h', b'e', b'l', b'l', b'o', 0x11, 0x00, 0x00, 0xFF];
    let mut out = [0u8; 8];
    assert_eq!(decompress(&src, &mut out), Err(EResult::InputNotConsumed(5)));
    assert_eq!(&out[..5], b"hello");
}

#[test]
fn terminator_with_other_length_is_an_error() {
    // A literal run of one byte, then M4 with L = 2 (length 4) and distance 0.
    assert_eq!(decompress(&[0x12, b'a', 0x12, 0x00, 0x00], &mut [0u8; 4]), Err(EResult::Error));
}

#[test]
fn result_does_not_depend_on_a_larger_buffer() {
    let src = [19u8, b'a', b'b', 0x04, 0x00, 0x60, 0x00, 0x11, 0x00, 0x00];
    let mut exact = [0u8; 8];
    let mut larger = [0u8; 300];
    assert_eq!(decompress(&src, &mut exact), Ok(8));
    assert_eq!(decompress(&src, &mut larger), Ok(8));
    assert_eq!(&larger[..8], &exact[..]);
    // One byte short is the only way to fail.
    assert_eq!(decompress(&src, &mut [0u8; 7]), Err(EResult::OutputOverrun));
}

#[test]
fn buffer_of_255_bytes_per_input_byte_suffices() {
    // A long M3 copy of one byte repeated: 3 + 255 * 3 + 1 bytes from 10 input bytes.
    let src = [18u8, b'z', 0x20, 0x00, 0x00, 0x00, 0x00, 0x00, 0x11, 0x00, 0x00];
    let mut out = vec![0u8; 255 * src.len()];
    let r = decompress(&src, &mut out);
    assert!(r != Err(EResult::OutputOverrun));
}

#[test]
fn exact_buffer_suffices_and_smaller_overruns() {
    let src = [22u8, b'h', b'e', b'l', b'l', b'o', 0x11, 0x00, 0x00];
    let mut exact = [9u8; 5];
    assert_eq!(decompress(&src, &mut exact), Ok(5));
    assert_eq!(&exact, b"hello");
    for n in 0..5 {
        let mut small = vec![0u8; n];
        assert_eq!(decompress(&src, &mut small), Err(EResult::OutputOverrun));
    }
}

#[test]
fn trailing_bytes_keep_the_decoded_data() {
    let src = [19u8, b'a', b'b', 0x04, 0x00, 0x60, 0x00, 0x11, 0x00, 0x00];
    let mut plain = [0u8; 16];
    assert_eq!(decompress(&src, &mut plain), Ok(8));
    let mut longer = src.to_vec();
    longer.extend_from_slice(&[1, 2, 3]);
    let mut with_tail = [0u8; 16];
    assert_eq!(decompress(&longer, &mut with_tail), Err(EResult::InputNotConsumed(8)));
    assert_eq!(&with_tail[..8], &plain[..8]);
}
