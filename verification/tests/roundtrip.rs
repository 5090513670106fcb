//! Decode round trips: a small reference decoder for single fixed-Huffman
//! DEFLATE blocks checks that `compress` output restores the input exactly.

use flate::bitstream::ostream::OutputStream;
use flate::deflate::{compress, deflate};
use flate::huffman::generate::generate_fixed_code;

fn read_bit(data: &[u8], pos: &mut usize) -> u32 {
    let bit = (data[*pos / 8] >> (*pos % 8)) & 1;
    *pos += 1;
    bit as u32
}

// Numerical fields: least-significant bit first.
fn read_bits_lsb(data: &[u8], pos: &mut usize, n: usize) -> u32 {
    let mut v = 0u32;
    for i in 0..n {
        v |= read_bit(data, pos) << i;
    }
    v
}

// Huffman codewords: most-significant bit first.
fn read_code_msb(data: &[u8], pos: &mut usize, n: usize) -> u32 {
    let mut v = 0u32;
    for _ in 0..n {
        v = (v << 1) | read_bit(data, pos);
    }
    v
}

// Decode one final fixed-Huffman block (RFC 1951 §3.2.6).
fn inflate_fixed(data: &[u8]) -> Vec<u8> {
    let length_table: [(usize, usize); 29] = [
        (3, 0), (4, 0), (5, 0), (6, 0), (7, 0), (8, 0), (9, 0), (10, 0),
        (11, 1), (13, 1), (15, 1), (17, 1),
        (19, 2), (23, 2), (27, 2), (31, 2),
        (35, 3), (43, 3), (51, 3), (59, 3),
        (67, 4), (83, 4), (99, 4), (115, 4),
        (131, 5), (163, 5), (195, 5), (227, 5),
        (258, 0),
    ];
    let dist_table: [(usize, usize); 30] = [
        (1, 0), (2, 0), (3, 0), (4, 0), (5, 1), (7, 1), (9, 2), (13, 2),
        (17, 3), (25, 3), (33, 4), (49, 4), (65, 5), (97, 5), (129, 6), (193, 6),
        (257, 7), (385, 7), (513, 8), (769, 8), (1025, 9), (1537, 9),
        (2049, 10), (3073, 10), (4097, 11), (6145, 11), (8193, 12), (12289, 12),
        (16385, 13), (24577, 13),
    ];
    let mut pos = 0usize;
    assert_eq!(1, read_bits_lsb(data, &mut pos, 1), "BFINAL must be set");
    assert_eq!(1, read_bits_lsb(data, &mut pos, 2), "BTYPE must be fixed (01)");
    let mut out: Vec<u8> = Vec::new();
    loop {
        let mut code = read_code_msb(data, &mut pos, 7);
        let sym = if code <= 0b001_0111 {
            256 + code
        } else {
            code = (code << 1) | read_bit(data, &mut pos);
            if (0b0011_0000..=0b1011_1111).contains(&code) {
                code - 48
            } else if (0b1100_0000..=0b1100_0111).contains(&code) {
                280 + code - 192
            } else {
                code = (code << 1) | read_bit(data, &mut pos);
                assert!((400..=511).contains(&code), "invalid 9-bit code {code}");
                144 + code - 400
            }
        };
        if sym == 256 {
            break;
        }
        if sym < 256 {
            out.push(sym as u8);
            continue;
        }
        assert!(sym <= 285, "reserved length symbol {sym}");
        let (base, extra) = length_table[(sym - 257) as usize];
        let length = base + read_bits_lsb(data, &mut pos, extra) as usize;
        let dsym = read_code_msb(data, &mut pos, 5) as usize;
        assert!(dsym < 30, "reserved distance symbol {dsym}");
        let (dbase, dextra) = dist_table[dsym];
        let distance = dbase + read_bits_lsb(data, &mut pos, dextra) as usize;
        assert!(distance <= out.len(), "distance {distance} reaches before the output");
        for _ in 0..length {
            let b = out[out.len() - distance];
            out.push(b);
        }
    }
    out
}

fn assert_round_trip(input: &[u8]) {
    let packed = compress(input);
    assert_eq!(input, inflate_fixed(&packed).as_slice());
}

fn pseudo_random_bytes(n: usize) -> Vec<u8> {
    let mut state: u64 = 0x9E37_79B9_7F4A_7C15;
    let mut out = Vec::with_capacity(n);
    for _ in 0..n {
        state ^= state << 13;
        state ^= state >> 7;
        state ^= state << 17;
        out.push((state >> 32) as u8);
    }
    out
}

#[test]
fn round_trip_empty() {
    assert_round_trip(&[]);
}

#[test]
fn round_trip_one_letter() {
    assert_round_trip(b"a");
}

#[test]
fn round_trip_short_text() {
    assert_round_trip(b"Fa-la-la-la");
}

#[test]
fn round_trip_run_of_21() {
    assert_round_trip(&[b'a'; 21]);
}

#[test]
fn round_trip_random_32k() {
    assert_round_trip(&pseudo_random_bytes(32 * 1024));
}

#[test]
fn round_trip_repeated_byte_64k() {
    assert_round_trip(&vec![0xAAu8; 64 * 1024]);
}

// Driving the sink token by token through explicit tables gives the
// same bytes as `compress`.
#[test]
fn round_trip_token_by_token() {
    let input = b"Fa-la-la-la, tra-la-la-la";
    let tokens = deflate(input);
    let (ll_code, d_code) = generate_fixed_code();
    let mut os = OutputStream::new(ll_code.clone(), d_code.clone());
    for token in &tokens {
        token.write_to_ostream(&ll_code, &d_code, &mut os);
    }
    let packed = os.finalize();
    assert_eq!(compress(input), packed);
    assert_eq!(input, inflate_fixed(&packed).as_slice());
}
