use sbof::de::Deserializer;
use sbof::{Error, Result};

fn de(bytes: &[u8]) -> Deserializer<'_> {
    Deserializer::new(bytes, 0, false)
}

fn f32_of(bytes: &[u8]) -> Result<f32> {
    Ok(f32::from_bits(de(bytes).deserialize_f32_bits()?))
}

fn f64_of(bytes: &[u8]) -> Result<f64> {
    Ok(f64::from_bits(de(bytes).deserialize_f64_bits()?))
}

#[test]
fn de_integer_test() -> Result<()> {
    assert_eq!(de(&[0x01, 0x05]).deserialize_i16()?, 5);
    assert_eq!(de(&[0x01, 0x05]).deserialize_u16()?, 5);
    assert_eq!(de(&[0x02, 0x01, 0x02]).deserialize_u16()?, 513);
    assert_eq!(de(&[0x01, 0x02]).deserialize_i32()?, 2);
    assert_eq!(de(&[0x01, 0x02]).deserialize_u32()?, 2);
    assert_eq!(de(&[0x01, 0x02]).deserialize_i64()?, 2);
    assert_eq!(de(&[0x01, 0x02]).deserialize_u64()?, 2);
    assert_eq!(de(&[0x01, 0x02]).deserialize_i128()?, 2);
    assert_eq!(de(&[0x01, 0x02]).deserialize_u128()?, 2);

    Ok(())
}

#[test]
fn de_float_test() -> Result<()> {
    assert_eq!(f32_of(&[0x00, 0xff])?, 0.5);
    assert_eq!(f32_of(&[0x01, 0x02, 0x02])?, 5.0);
    assert_eq!(f32_of(&[0xfe, 0x02])?, -5.0);
    assert_eq!(f32_of(&[0x00, 0xfe])?, 0.25);
    assert_eq!(f32_of(&[0x00, 0x01])?, 2.0);
    assert_eq!(f32_of(&[0x00, 0x00])?, 1.0);
    assert_eq!(f32_of(&[0x05, 0x05])?, 52.0);
    assert_eq!(
        f32::from_bits(
            Deserializer::new(&[0x31, 0x08, 0x64, 0x40], 0, true).deserialize_f32_bits()?
        ),
        3.563f32
    );

    assert_eq!(f64_of(&[0x00, 0xff])?, 0.5);
    assert_eq!(f64_of(&[0x01, 0x02, 0x01, 0x02])?, 5.0);
    assert_eq!(f64_of(&[0xfe, 0x01, 0x02])?, -5.0);
    assert_eq!(f64_of(&[0x00, 0xfe])?, 0.25);
    assert_eq!(f64_of(&[0x00, 0x01, 0x01])?, 2.0);
    assert_eq!(f64_of(&[0x00, 0x00])?, 1.0);
    assert_eq!(f64_of(&[0x01, 0x05, 0x05])?, 52.0);
    assert_eq!(
        f64_of(&[0x07, 0x9b, 0x0b, 0xe7, 0xbd, 0xe2, 0x0d, 0x0f, 0xfd])?,
        0.2313554863585172f64
    );

    Ok(())
}

#[derive(PartialEq, Debug)]
enum Testing {
    One(u32),
    Two(u64),
    Struct { field1: usize, field2: u32, field3: i8 },
    Unit,
}

fn testing_of(bytes: &[u8]) -> Result<Testing> {
    let mut d = de(bytes);
    match d.deserialize_variant()? {
        0 => Ok(Testing::One(d.deserialize_u32()?)),
        1 => Ok(Testing::Two(d.deserialize_u64()?)),
        2 => Ok(Testing::Struct {
            field1: d.deserialize_u64()? as usize,
            field2: d.deserialize_u32()?,
            field3: d.deserialize_i8()?,
        }),
        3 => Ok(Testing::Unit),
        v => Err(Error::InvalidValue { value: v, reason: "unknown variant" }),
    }
}

#[test]
fn enum_test() -> Result<()> {
    assert_eq!(testing_of(&[0x01, 0x03])?, Testing::Unit);
    assert_eq!(
        testing_of(&[0x01, 0x02, 0x00, 0x05, 0xff])?,
        Testing::Struct { field1: 0, field2: 5, field3: -1 }
    );
    assert_eq!(testing_of(&[0x01, 0x01, 0x32])?, Testing::Two(50));
    assert_eq!(testing_of(&[0x00, 0x03, 0x01, 0x00, 0x00])?, Testing::One(1));
    assert!(matches!(testing_of(&[0x09]), Err(Error::InvalidValue { value: 9, .. })));

    Ok(())
}

#[test]
fn truncated_input_is_end_of_input() {
    assert!(matches!(de(&[]).deserialize_u8(), Err(Error::EOF)));
    assert!(matches!(de(&[]).deserialize_bool(), Err(Error::EOF)));
    assert!(matches!(de(&[0x02, 0x01]).deserialize_u16(), Err(Error::EOF)));
    assert!(matches!(de(&[0x04, 0x01, 0x02, 0x03]).deserialize_i32(), Err(Error::EOF)));
    assert!(matches!(de(&[0x01, 0x02]).deserialize_f32_bits(), Err(Error::EOF)));
    assert!(matches!(de(&[0x00]).deserialize_f64_bits(), Err(Error::EOF)));
    assert!(matches!(
        Deserializer::new(&[0x00, 0x00, 0x80], 0, true).deserialize_f32_bits(),
        Err(Error::EOF)
    ));
    assert!(matches!(de(&[0x01, 0x03, b'a', b'b']).deserialize_str(), Err(Error::EOF)));
    assert!(matches!(de(&[0x01, 0x05]).deserialize_byte_buf(), Err(Error::EOF)));
    assert!(matches!(de(&[]).deserialize_option(), Err(Error::EOF)));
    assert!(matches!(de(&[0x01]).deserialize_len(), Err(Error::EOF)));
    assert!(matches!(de(&[]).deserialize_char(), Err(Error::EOF)));
}

#[test]
fn oversized_length_without_its_bytes_is_end_of_input() {
    assert!(matches!(de(&[0x20]).deserialize_len(), Err(Error::EOF)));
    assert!(matches!(de(&[0x11, 0x00, 0x00]).deserialize_byte_arr(), Err(Error::EOF)));
    assert!(matches!(de(&[0xff]).deserialize_string(), Err(Error::EOF)));
}

#[test]
fn oversized_length_is_invalid() {
    let mut bytes = vec![0x11];
    bytes.extend_from_slice(&[0u8; 17]);
    assert!(matches!(de(&bytes).deserialize_len(), Err(Error::InvalidValue { value: 0x11, .. })));
    assert!(matches!(de(&bytes).deserialize_byte_arr(), Err(Error::InvalidValue { .. })));
    assert_eq!(de(&bytes).deserialize_u16().unwrap(), 0x11);
}

#[test]
fn invalid_values() {
    assert!(matches!(
        de(&[0x02]).deserialize_bool(),
        Err(Error::InvalidValue { value: 2, reason: "expected bool" })
    ));
    assert!(matches!(de(&[0x01]).deserialize_bool(), Ok(true)));
    assert!(matches!(de(&[0x00]).deserialize_bool(), Ok(false)));
    // 0xD800 is a surrogate, 0x110000 lies beyond the last code point.
    assert!(matches!(
        de(&[0x02, 0x00, 0xd8]).deserialize_char(),
        Err(Error::InvalidValue { value: 0xd800, .. })
    ));
    assert!(matches!(
        de(&[0x03, 0x00, 0x00, 0x11]).deserialize_char(),
        Err(Error::InvalidValue { value: 0x110000, .. })
    ));
    assert_eq!(de(&[0x03, 0xa3, 0xf4, 0x01]).deserialize_char().unwrap(), '💣');
    assert!(matches!(de(&[0x01, 0x02, 0xc3, 0x28]).deserialize_str(), Err(Error::InvalidUTF8)));
    assert!(matches!(de(&[0x01, 0x01, 0xff]).deserialize_string(), Err(Error::InvalidUTF8)));
    assert_eq!(de(&[0x01, 0x02, 0xc3, 0x9f]).deserialize_string().unwrap(), "ß");
    assert_eq!(de(&[0x00]).deserialize_str().unwrap(), "");
}

#[test]
fn header_version() {
    assert!(matches!(Deserializer::with_header(&[0x01, 0x00, 0x05]), Err(Error::UnsupportedVersion)));
    assert!(matches!(Deserializer::with_header(&[0x07]), Err(Error::UnsupportedVersion)));
    assert!(matches!(Deserializer::with_header(&[0x00]), Err(Error::EOF)));
    assert!(matches!(Deserializer::with_header(&[]), Err(Error::EOF)));
    let mut d = Deserializer::with_header(&[0x00, 0x01, 0x00, 0x00, 0x80, 0x3f]).unwrap();
    assert!(d.high_precision());
    assert_eq!(d.version(), 0);
    assert_eq!(f32::from_bits(d.deserialize_f32_bits().unwrap()), 1.0);
    let d = Deserializer::with_header(&[0x00, 0x00]).unwrap();
    assert!(!d.high_precision());
    let d = Deserializer::with_header(&[0x00, 0x02, 0x09]).unwrap();
    assert!(!d.high_precision());
}

#[test]
fn option_tags() {
    let mut d = de(&[0x00, 0x01, 0x00, 0x07]);
    assert_eq!(d.deserialize_option().unwrap(), false);
    assert_eq!(d.deserialize_option().unwrap(), true);
    assert_eq!(d.deserialize_u8().unwrap(), 0);
    assert_eq!(d.deserialize_option().unwrap(), true);
    assert_eq!(d.deserialize_u8().unwrap(), 7);
}

#[test]
fn unsupported_operations() {
    let d = de(&[]);
    assert!(matches!(d.deserialize_any(), Err(Error::Unsupported { name: "deserialize_any", .. })));
    assert!(matches!(
        d.deserialize_identifier(),
        Err(Error::Unsupported { name: "deserialize_identifier", .. })
    ));
    assert!(matches!(
        d.deserialize_ignored_any(),
        Err(Error::Unsupported { name: "deserialize_ignored_any", .. })
    ));
}

#[test]
fn io_errors_are_carried() {
    let e: Error = std::io::Error::new(std::io::ErrorKind::Other, "sink failed").into();
    match e {
        Error::Io(inner) => assert_eq!(inner.to_string(), "sink failed"),
        other => panic!("unexpected {:?}", other),
    }
}
