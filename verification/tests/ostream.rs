use flate::bitstream::ostream::OutputStream;
use flate::huffman::generate::generate_fixed_code;

#[test]
fn ostream_trivial_test() {
    let os = OutputStream::default();
    assert!(os.output.is_empty());
}

#[test]
fn test_write_bit() {
    let mut os = OutputStream::default();
    os.write_bit(true);
    assert_eq!(0b0000_0001, os.current);
    assert_eq!(1, os.bit_pos);
    os.write_code(3, 0b110);
    assert_eq!(0b0000_0111, os.current);
    assert_eq!(4, os.bit_pos);
    os.write_bit(false);
    assert_eq!(0b0000_0111, os.current);
    assert_eq!(5, os.bit_pos);
    assert_eq!(&[0b0000_0111], os.finalize().as_slice());
}

#[test]
fn test_write_trait() {
    let mut os = OutputStream::default();
    let buf = [1, 2, 3];
    os.write(&buf);
    let output = os.finalize();
    assert_eq!(buf, output.as_slice());
}

// Writing one numerical bit and then a 3-bit codeword MSB-first leaves
// the bits 1, 1, 1, 0 in the low nibble of the byte in progress.
#[test]
fn test_code_bits_enter_high_bit_first() {
    let mut os = OutputStream::default();
    os.write_numerical(1, 1);
    os.write_code(3, 0b110);
    assert_eq!(4, os.bit_pos);
    assert_eq!(0b0111, os.current & 0x0F);
    assert_eq!(&[0b0000_0111], os.finalize().as_slice());
}

// The block header (BFINAL=1, BTYPE=01) followed by the 7-bit
// end-of-block codeword packs into 0b00000011 and a zero pad byte.
#[test]
fn test_header_and_eob_pack() {
    let (ll_code, d_code) = generate_fixed_code();
    let mut os = OutputStream::new(ll_code, d_code);
    os.write_numerical(1, 1);
    os.write_numerical(2, 1);
    os.write_code(7, 0);
    assert_eq!(vec![0b0000_0011u8, 0b0000_0000], os.finalize());
}
