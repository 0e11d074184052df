use sbof::ser::{generate_header, Serializer};
use sbof::Result;

fn encoded(f: impl FnOnce(&mut Serializer)) -> Vec<u8> {
    let mut s = Serializer::new(Vec::new(), false);
    f(&mut s);
    s.into_bytes()
}

fn encoded_precise(f: impl FnOnce(&mut Serializer)) -> Vec<u8> {
    let mut s = Serializer::new(Vec::new(), true);
    f(&mut s);
    s.into_bytes()
}

#[test]
fn char_test() -> Result<()> {
    assert_eq!(encoded(|s| s.serialize_char('c')), b"c");
    assert_eq!(encoded(|s| s.serialize_char('\0')), b"\0");
    assert_eq!(encoded(|s| s.serialize_char('\x01')), b"\x01\x01");
    assert_eq!(encoded(|s| s.serialize_char('ß')), [0xdf]);
    assert_eq!(encoded(|s| s.serialize_char('ℝ')), [0x02, 0x1d, 0x21]);
    assert_eq!(encoded(|s| s.serialize_char('💣')), [0x03, 0xa3, 0xf4, 0x01]);
    Ok(())
}

#[test]
fn ser_integer_test() -> Result<()> {
    assert_eq!(encoded(|s| s.serialize_i32(2)), [0x01, 0x02]);
    assert_eq!(encoded(|s| s.serialize_u32(2)), [0x01, 0x02]);
    assert_eq!(encoded(|s| s.serialize_u16(5)), [0x05]);
    assert_eq!(encoded(|s| s.serialize_u16(16)), [0x10]);
    assert_eq!(encoded(|s| s.serialize_u16(256)), [0x02, 0x00, 0x01]);
    assert_eq!(encoded(|s| s.serialize_i16(-5)), [0xfb]);
    assert_eq!(encoded(|s| s.serialize_i16(-16)), [0xf0]);
    assert_eq!(encoded(|s| s.serialize_i16(256)), [0x02, 0x00, 0x01]);
    assert_eq!(encoded(|s| s.serialize_i16(-256)), [0x02, 0x00, 0xff]);

    Ok(())
}

#[test]
fn ser_float_test() -> Result<()> {
    assert_eq!(encoded(|s| s.serialize_f64_bits(5.0f64.to_bits())), [0x01, 0x02, 0x01, 0x02]);
    assert_eq!(
        encoded(|s| s.serialize_f64_bits(3.351951982485649e154f64.to_bits())),
        [0x01, 0x02, 0x02, 0x01, 0x02]
    );
    assert_eq!(
        encoded(|s| s.serialize_f64_bits(0.2313554863585172f64.to_bits())),
        [0x07, 0x9b, 0x0b, 0xe7, 0xbd, 0xe2, 0x0d, 0x0f, 0xfd]
    );
    assert_eq!(encoded(|s| s.serialize_f32_bits(5.0f32.to_bits())), [0x01, 0x02, 0x02]);
    assert_eq!(encoded(|s| s.serialize_f32_bits((-5.0f32).to_bits())), [0xfe, 0x02]);
    assert_eq!(encoded(|s| s.serialize_f32_bits(0.5f32.to_bits())), [0x00, 0xff]);
    assert_eq!(encoded(|s| s.serialize_f64_bits(0.5f64.to_bits())), [0x00, 0xff]);
    assert_eq!(encoded(|s| s.serialize_f32_bits(0.25f32.to_bits())), [0x00, 0xfe]);
    assert_eq!(encoded(|s| s.serialize_f64_bits(0.25f64.to_bits())), [0x00, 0xfe]);
    assert_eq!(encoded(|s| s.serialize_f32_bits(1f32.to_bits())), [0x00, 0x00]);
    assert_eq!(encoded(|s| s.serialize_f32_bits(2.0f32.to_bits())), [0x00, 0x01]);
    assert_eq!(encoded(|s| s.serialize_f32_bits(52.0f32.to_bits())), [0x05, 0x05]);
    assert_eq!(
        encoded_precise(|s| s.serialize_f32_bits(3.563f32.to_bits())),
        [0x31, 0x08, 0x64, 0x40]
    );

    Ok(())
}

#[test]
fn negative_f64_keeps_its_sign() {
    assert_eq!(encoded(|s| s.serialize_f64_bits((-5.0f64).to_bits())), [0xfe, 0x01, 0x02]);
    // A zero fraction under a set sign bit is written as significand -2^52.
    assert_eq!(
        encoded(|s| s.serialize_f64_bits((-1.0f64).to_bits())),
        [0x07, 0, 0, 0, 0, 0, 0, 0xf0, 0x00]
    );
}

#[test]
fn minimal_integer_lengths() {
    assert_eq!(encoded(|s| s.serialize_u16(0)), [0x00]);
    assert_eq!(encoded(|s| s.serialize_u16(2)), [0x01, 0x02]);
    assert_eq!(encoded(|s| s.serialize_u16(3)), [0x03]);
    assert_eq!(encoded(|s| s.serialize_u32(4)), [0x01, 0x04]);
    assert_eq!(encoded(|s| s.serialize_u32(5)), [0x05]);
    assert_eq!(encoded(|s| s.serialize_u32(255)), [0xff]);
    assert_eq!(encoded(|s| s.serialize_u32(0x1_0000)), [0x03, 0x00, 0x00, 0x01]);
    assert_eq!(
        encoded(|s| s.serialize_u64(u64::MAX)),
        [0x08, 0xff, 0xff, 0xff, 0xff, 0xff, 0xff, 0xff, 0xff]
    );
    let mut max = vec![0x10];
    max.extend_from_slice(&[0xff; 16]);
    assert_eq!(encoded(|s| s.serialize_u128(u128::MAX)), max);
    assert_eq!(encoded(|s| s.serialize_i32(-128)), [0x80]);
    assert_eq!(encoded(|s| s.serialize_i32(-129)), [0x02, 0x7f, 0xff]);
    assert_eq!(encoded(|s| s.serialize_i32(127)), [0x7f]);
    assert_eq!(encoded(|s| s.serialize_i32(128)), [0x02, 0x80, 0x00]);
    assert_eq!(encoded(|s| s.serialize_i64(i64::MIN)), [0x08, 0, 0, 0, 0, 0, 0, 0, 0x80]);
    assert_eq!(encoded(|s| s.serialize_i128(16)), [0x01, 0x10]);
    assert_eq!(encoded(|s| s.serialize_i128(17)), [0x11]);
}

#[test]
fn scalars_of_fixed_size() {
    assert_eq!(encoded(|s| s.serialize_bool(true)), [0x01]);
    assert_eq!(encoded(|s| s.serialize_bool(false)), [0x00]);
    assert_eq!(encoded(|s| s.serialize_u8(3)), [0x03]);
    assert_eq!(encoded(|s| s.serialize_i8(-1)), [0xff]);
    assert_eq!(encoded(|s| s.serialize_i8(-128)), [0x80]);
    assert_eq!(encoded(|s| s.serialize_i8(2)), [0x02]);
}

#[test]
fn compact_floats_are_short() {
    assert_eq!(encoded(|s| s.serialize_f32_bits(1.0f32.to_bits())).len(), 2);
    assert_eq!(encoded(|s| s.serialize_f32_bits(2.0f32.to_bits())).len(), 2);
    assert_eq!(encoded(|s| s.serialize_f64_bits(1.0f64.to_bits())), [0x00, 0x00]);
    assert_eq!(encoded_precise(|s| s.serialize_f64_bits(1.0f64.to_bits())), 1.0f64.to_le_bytes());
}

#[test]
fn strings_and_bytes() {
    assert_eq!(encoded(|s| s.serialize_str("")), [0x00]);
    assert_eq!(encoded(|s| s.serialize_str("hi")), [0x01, 0x02, b'h', b'i']);
    assert_eq!(encoded(|s| s.serialize_str("ß")), [0x01, 0x02, 0xc3, 0x9f]);
    assert_eq!(encoded(|s| s.serialize_bytes(&[9; 300]))[..3], [0x02, 0x2c, 0x01]);
    assert_eq!(encoded(|s| s.serialize_usize(0)), [0x00]);
    assert_eq!(encoded(|s| s.serialize_usize(1)), [0x01, 0x01]);
}

#[test]
fn option_marker() {
    assert_eq!(encoded(|s| s.serialize_none()), [0x00]);
    assert_eq!(encoded(|s| s.serialize_some(&[0x00])), [0x01, 0x00]);
    assert_eq!(encoded(|s| s.serialize_some(&[0x01, 0x02])), [0x01, 0x01, 0x02]);
    assert_eq!(encoded(|s| s.serialize_some(&[0x07])), [0x07]);
    assert_eq!(encoded(|s| s.serialize_some(&[])), [0x01]);

    let mut inner = Serializer::new(Vec::new(), false);
    inner.serialize_u8(0);
    assert_eq!(encoded(|s| s.serialize_some(inner.as_bytes())), [0x01, 0x00]);
    let mut inner = Serializer::new(Vec::new(), false);
    inner.serialize_u8(42);
    assert_eq!(encoded(|s| s.serialize_some(inner.as_bytes())), [42]);
}

#[test]
fn compound_frames() {
    let mut s = Serializer::new(Vec::new(), false);
    s.begin_compound();
    for v in [1u16, 300, 7] {
        let mut e = s.dup();
        e.serialize_u16(v);
        s.serialize_element(e.as_bytes());
    }
    s.end_seq();
    assert_eq!(s.into_bytes(), [0x01, 0x03, 0x01, 0x01, 0x02, 0x2c, 0x01, 0x07]);

    let mut s = Serializer::new(Vec::new(), false);
    s.begin_compound();
    s.end_seq();
    assert_eq!(s.into_bytes(), [0x00]);

    let mut s = Serializer::new(Vec::new(), false);
    s.serialize_variant(2);
    s.begin_compound();
    s.serialize_field(&[0x09]);
    s.serialize_field(&[0x01, 0x03]);
    s.end_fields();
    assert_eq!(s.into_bytes(), [0x01, 0x02, 0x09, 0x01, 0x03]);
}

#[test]
fn header_bytes() {
    assert_eq!(generate_header(false).into_bytes(), [0x00, 0x00]);
    assert_eq!(generate_header(true).into_bytes(), [0x00, 0x01]);
    let s = generate_header(true);
    assert!(s.high_precision());
    assert!(s.dup().as_bytes().is_empty());
}
