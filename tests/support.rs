use processor::hex::encode_hex_bytes_truncated;
use processor::image::{decode_png_bytes, png_from_frame, ImageError};
use processor::processor::merge_unique;
use processor::timer::{period_reached, Timer};
use processor::tokens::{ColorScheme, Color, MaybeStatic, Token, IBM};

const RGBA_1X1: [u8; 70] = [
    0x89, 0x50, 0x4e, 0x47, 0x0d, 0x0a, 0x1a, 0x0a, 0x00, 0x00, 0x00, 0x0d, 0x49, 0x48, 0x44, 0x52, 0x00, 0x00, 0x00,
    0x01, 0x00, 0x00, 0x00, 0x01, 0x08, 0x06, 0x00, 0x00, 0x00, 0x1f, 0x15, 0xc4, 0x89, 0x00, 0x00, 0x00, 0x0d, 0x49,
    0x44, 0x41, 0x54, 0x78, 0x9c, 0x63, 0x10, 0x50, 0x30, 0x70, 0x00, 0x00, 0x01, 0x45, 0x00, 0xa1, 0x51, 0x86, 0x26,
    0x4f, 0x00, 0x00, 0x00, 0x00, 0x49, 0x45, 0x4e, 0x44, 0xae, 0x42, 0x60, 0x82,
];

const RGB_1X1: [u8; 69] = [
    0x89, 0x50, 0x4e, 0x47, 0x0d, 0x0a, 0x1a, 0x0a, 0x00, 0x00, 0x00, 0x0d, 0x49, 0x48, 0x44, 0x52, 0x00, 0x00, 0x00,
    0x01, 0x00, 0x00, 0x00, 0x01, 0x08, 0x02, 0x00, 0x00, 0x00, 0x90, 0x77, 0x53, 0xde, 0x00, 0x00, 0x00, 0x0c, 0x49,
    0x44, 0x41, 0x54, 0x78, 0x9c, 0x63, 0x10, 0x50, 0x30, 0x00, 0x00, 0x00, 0xa4, 0x00, 0x61, 0x34, 0x66, 0x7d, 0x72,
    0x00, 0x00, 0x00, 0x00, 0x49, 0x45, 0x4e, 0x44, 0xae, 0x42, 0x60, 0x82,
];

#[test]
fn decodes_rgba_png() {
    let png = decode_png_bytes(&RGBA_1X1).unwrap();
    assert_eq!((png.width, png.height), (1, 1));
    assert_eq!(png.data, vec![0x10, 0x20, 0x30, 0x40]);
}

#[test]
fn refuses_rgb_png() {
    assert_eq!(decode_png_bytes(&RGB_1X1).err(), Some(ImageError::PngFormat));
}

#[test]
fn refuses_garbage() {
    assert_eq!(decode_png_bytes(&[1, 2, 3]).err(), Some(ImageError::PngDecode));
}

#[test]
fn frame_checks() {
    assert_eq!(png_from_frame(vec![], 0, 4, true).err(), Some(ImageError::PngDecode));
    assert_eq!(png_from_frame(vec![], 4, 0, true).err(), Some(ImageError::PngDecode));
    assert_eq!(png_from_frame(vec![1, 2, 3], 1, 1, false).err(), Some(ImageError::PngFormat));
    let ok = png_from_frame(vec![9, 8, 7, 6], 1, 1, true).unwrap();
    assert_eq!(ok.data, vec![9, 8, 7, 6]);
}

#[test]
fn period_threshold() {
    assert!(!period_reached(16, 60));
    assert!(period_reached(17, 60));
    assert!(!period_reached(100, 10));
    assert!(period_reached(101, 10));
    assert!(!period_reached(1_000_000, 0));
    assert!(!Timer::new(0).reached());
}

#[test]
fn hex_truncation() {
    assert_eq!(encode_hex_bytes_truncated(&[0xde, 0xad], usize::MAX, false), "de ad ");
    assert_eq!(encode_hex_bytes_truncated(&[0xde, 0xad], 10, true), "de ad     ");
    assert_eq!(encode_hex_bytes_truncated(&[1, 2, 3, 4], 10, true), "01 02 ... ");
    assert_eq!(encode_hex_bytes_truncated(&[], 4, true), "    ");
}

#[test]
fn merge_keeps_order_without_repeats() {
    assert_eq!(merge_unique(&vec![1, 4, 9], &vec![2, 4, 10]), vec![1, 2, 4, 9, 10]);
    assert_eq!(merge_unique(&vec![], &vec![3]), vec![3]);
}

#[test]
fn tokens_and_scheme() {
    let a = Token::from_str("mov", IBM::opcode());
    let b = Token::from_string("rax".to_string(), IBM::register());
    assert_eq!(a.text.as_str(), "mov");
    assert_eq!(b.text.as_str(), "rax");
    assert!(matches!(b.text, MaybeStatic::Dynamic(_)));
    assert_eq!(IBM::known(), Color::Purple);
    assert_eq!(IBM::spacing(), Color::White);
}
