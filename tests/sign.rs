use sbof::sign_extend_le;

#[test]
fn sign_extend_test() {
    assert_eq!(sign_extend_le((5u8).to_le_bytes().as_slice()), 5);
    assert_eq!(sign_extend_le((-25i8).to_le_bytes().as_slice()), -25);
}

#[test]
fn sign_extend_widths() {
    assert_eq!(sign_extend_le(&[0x00, 0xff]), -256);
    assert_eq!(sign_extend_le(&[0xff, 0x7f]), 32767);
    assert_eq!(sign_extend_le(&i128::MIN.to_le_bytes()), i128::MIN);
    assert_eq!(sign_extend_le(&i128::MAX.to_le_bytes()), i128::MAX);
    assert_eq!(sign_extend_le(&(-2i32).to_le_bytes()[..3]), -2);
}

#[test]
fn reverse_low_bits_values() {
    assert_eq!(sbof::reverse_low_bits(0b1, 23), 1 << 22);
    assert_eq!(sbof::reverse_low_bits(0b110, 4), 0b0110);
    assert_eq!(sbof::reverse_low_bits(0b1101, 4), 0b1011);
    assert_eq!(sbof::reverse_low_bits(0x4000000000000, 52), 2);
    assert_eq!(sbof::reverse_low_bits(u64::MAX, 0), 0);
}
