use flate::deflate::distance_conversion;
use flate::deflate::length_conversion;
use flate::deflate::DeflateToken;
use flate::deflate::{compress, deflate};

// RFC 1951 §3.2.5: match lengths map to symbol, extra-bit count and
// extra-bit value.
#[test]
fn test_length_conversion_table() {
    assert_eq!((257, 0, 0), length_conversion(3));
    assert_eq!((264, 0, 0), length_conversion(10));
    assert_eq!((265, 1, 0), length_conversion(11));
    assert_eq!((265, 1, 1), length_conversion(12));
    assert_eq!((269, 2, 0), length_conversion(19));
    assert_eq!((284, 5, 30), length_conversion(257));
    assert_eq!((285, 0, 0), length_conversion(258));
}

#[test]
fn test_distance_conversion_table() {
    assert_eq!((0, 0, 0), distance_conversion(1));
    assert_eq!((3, 0, 0), distance_conversion(4));
    assert_eq!((4, 1, 0), distance_conversion(5));
    assert_eq!((9, 3, 0), distance_conversion(25));
    assert_eq!((11, 4, 8), distance_conversion(57));
    assert_eq!((29, 13, 8191), distance_conversion(32768));
}

// Twenty-one repeated bytes: one literal, then a single overlapping
// back-reference of length 20 at distance 1 (most recent match wins).
#[test]
fn test_run_of_bytes_tokens() {
    let input = [b'a'; 21];
    let tokens = deflate(&input);
    assert_eq!(5, tokens.len());
    assert!(matches!(tokens[0], DeflateToken::Bhead(1)));
    assert!(matches!(tokens[1], DeflateToken::Btype(1)));
    assert!(matches!(tokens[2], DeflateToken::Literal(97)));
    assert!(matches!(tokens[3], DeflateToken::Backref { length: 20, distance: 1 }));
    assert!(matches!(tokens[4], DeflateToken::EndOfBlock));
}

// Empty input: exactly the 3-bit header and the 7-bit end-of-block
// code, zero-padded into two bytes.
#[test]
fn test_compress_empty() {
    assert_eq!(vec![0b0000_0011u8, 0b0000_0000], compress(&[]));
}

// One byte 0x41: header, the 8-bit codeword 0x71 for 'A' (MSB first),
// end of block, padding.
#[test]
fn test_compress_single_byte() {
    assert_eq!(vec![0x73u8, 0x04, 0x00], compress(&[0x41]));
}
