use flate::bitstream::istream::get_first_bits;
use flate::bitstream::istream::get_last_bits;
use flate::bitstream::istream::strip_last_bits;
use flate::bitstream::istream::InputStream;

#[test]
fn istream_trivial_test() {
    let data: [u8; 0] = [];
    let mut is = InputStream::new(&data);
    assert_eq!(0, is.bits_remain());
    let mut buf = vec![0u8; 1];
    assert_eq!(0, is.read(&mut buf))
}

#[test]
fn test_read_bit() {
    let data = [127u8];
    let mut is = InputStream::new(&data);
    assert_eq!(0, is.read_bit().unwrap());
    assert_eq!(1, is.read_bit().unwrap())
}

#[test]
fn test_read() {
    let data = [0u8, 1, 2, 3, 254, 255];
    let mut is = InputStream::new(&data);
    let mut buf = vec![0u8; 3];
    assert_eq!(3, is.read(&mut buf));
    assert_eq!(vec![0u8, 1, 2], buf);
    for i in 0..6 {
        assert_eq!(0, is.read_bit().unwrap(), "MSB number '{i}' must be zero");
    }
    assert_eq!(2, is.read(&mut buf));
    assert_eq!(255, buf[0]);
}

#[test]
fn test_bit_fetch() {
    let x = 0b01100011;
    assert_eq!(0, get_first_bits(x, 0));
    assert_eq!(0, get_last_bits(x, 0));
    assert_eq!(0b01100, get_first_bits(x, 5));
    assert_eq!(0b00011, get_last_bits(x, 5));
    assert_eq!(0b01100000, strip_last_bits(x, 2));
    assert_eq!(0b01100000, strip_last_bits(x, 3));
    assert_eq!(0b01100000, strip_last_bits(x, 5));
    assert_eq!(0, strip_last_bits(x, 8));
    assert_eq!(get_first_bits(x, 3), get_last_bits(x, 3));
}

#[test]
fn test_read_until_end_of_byte() {
    let data = [0b01101110u8, 0b00001101];
    let mut is = InputStream::new(&data);
    assert_eq!(0, is.read_bit().unwrap());
    assert_eq!(1, is.read_bit().unwrap());
    assert_eq!((0b101110, 6), is.read_until_end_of_byte());
    assert_eq!((0b00001101, 8), is.read_until_end_of_byte());
}
