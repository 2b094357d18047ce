use matcher_rs::simd::skip_ascii_non_delete_simd;
use matcher_rs::{simd_ascii_delete_mask, skip_ascii_simd, skip_non_digit_ascii_simd};

#[test]
fn skip_ascii_matches_scalar_behavior() {
    let text = "plain ascii 123".as_bytes();
    assert_eq!(skip_ascii_simd(text, 0), text.len());

    let mixed = "hello世界".as_bytes();
    assert_eq!(skip_ascii_simd(mixed, 0), 5);
    assert_eq!(skip_ascii_simd(mixed, 5), 5);
}

#[test]
fn skip_non_digit_ascii_matches_scalar_behavior() {
    let text = "abcdefXYZ".as_bytes();
    assert_eq!(skip_non_digit_ascii_simd(text, 0), text.len());

    let mixed = "abc9def".as_bytes();
    assert_eq!(skip_non_digit_ascii_simd(mixed, 0), 3);

    let unicode = "abc你".as_bytes();
    assert_eq!(skip_non_digit_ascii_simd(unicode, 0), 3);
}

#[test]
fn skip_ascii_non_delete_stops_on_delete_and_unicode() {
    let mut ascii_lut = [0u8; 16];
    ascii_lut[(b'!' as usize) >> 3] |= 1 << (b'!' & 7);

    let text = "abc!def".as_bytes();
    assert_eq!(skip_ascii_non_delete_simd(text, 0, &ascii_lut), 3);

    let unicode = "abcdef你".as_bytes();
    assert_eq!(skip_ascii_non_delete_simd(unicode, 0, &ascii_lut), 6);
}

#[test]
fn skip_helpers_at_the_end_return_the_length() {
    let text = "abc".as_bytes();
    assert_eq!(skip_ascii_simd(text, 3), 3);
    assert_eq!(skip_non_digit_ascii_simd(text, 3), 3);
    assert_eq!(skip_ascii_non_delete_simd(text, 3, &[0u8; 16]), 3);
    assert_eq!(skip_ascii_simd(&[], 0), 0);
}

#[test]
fn skip_helpers_scan_long_runs() {
    let long = "a".repeat(100) + "9" + "中";
    let bytes = long.as_bytes();
    assert_eq!(skip_ascii_simd(bytes, 0), 101);
    assert_eq!(skip_non_digit_ascii_simd(bytes, 0), 100);
    assert_eq!(skip_ascii_non_delete_simd(bytes, 7, &[0u8; 16]), 101);
}

#[test]
fn delete_mask_marks_deletable_ascii_bytes() {
    let mut ascii_lut = [0u8; 16];
    ascii_lut[(b'!' as usize) >> 3] |= 1 << (b'!' & 7);
    ascii_lut[(b' ' as usize) >> 3] |= 1 << (b' ' & 7);
    let mut chunk = [b'a'; 16];
    chunk[0] = b'!';
    chunk[3] = b' ';
    chunk[15] = b'!';
    chunk[7] = 0xE4;
    assert_eq!(simd_ascii_delete_mask(chunk, ascii_lut), (1u64 << 0) | (1u64 << 3) | (1u64 << 15));
    assert_eq!(simd_ascii_delete_mask([b'z'; 16], ascii_lut), 0);
}

#[test]
fn skip_ascii_non_delete_scans_whole_chunks() {
    let mut ascii_lut = [0u8; 16];
    ascii_lut[(b'!' as usize) >> 3] |= 1 << (b'!' & 7);
    let text = "a".repeat(20) + "!" + &"b".repeat(40);
    assert_eq!(skip_ascii_non_delete_simd(text.as_bytes(), 0, &ascii_lut), 20);
    assert_eq!(skip_ascii_non_delete_simd(text.as_bytes(), 21, &ascii_lut), text.len());
    let unicode = "c".repeat(33) + "中";
    assert_eq!(skip_ascii_non_delete_simd(unicode.as_bytes(), 1, &ascii_lut), 33);
    assert_eq!(skip_ascii_non_delete_simd(text.as_bytes(), 20, &ascii_lut), 20);
}
