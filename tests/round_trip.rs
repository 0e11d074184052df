use sbof::de::Deserializer;
use sbof::ser::{generate_header, Serializer};
use sbof::{Error, Result};

/// A small deterministic generator (xorshift64*), so that failures repeat.
struct Rng(u64);

impl Rng {
    fn next(&mut self) -> u64 {
        self.0 ^= self.0 >> 12;
        self.0 ^= self.0 << 25;
        self.0 ^= self.0 >> 27;
        self.0.wrapping_mul(0x2545_f491_4f6c_dd1d)
    }

    fn wide(&mut self) -> u128 {
        ((self.next() as u128) << 64) | self.next() as u128
    }

    fn character(&mut self) -> char {
        loop {
            if let Some(c) = char::from_u32((self.next() % 0x11_0000) as u32) {
                return c;
            }
        }
    }

    /// A float in `[0, 1)`, as a uniform generator produces it.
    fn unit_f32(&mut self) -> f32 {
        (self.next() >> 40) as f32 / (1u64 << 24) as f32
    }

    fn unit_f64(&mut self) -> f64 {
        (self.next() >> 11) as f64 / (1u64 << 53) as f64
    }
}

#[derive(Debug, PartialEq, Clone)]
enum TestEnum {
    Unit,
    Newtype(u8),
    Tuple(u8, u16),
    Struct { field1: i32, field2: char },
}

#[derive(Debug, PartialEq, Clone)]
struct TestStruct {
    character: char,
    unsigned8: u8,
    integer8: i8,
    unsigned16: u16,
    integer16: i16,
    unsigned32: u32,
    integer32: i32,
    unsigned64: u64,
    integer64: i64,
    unsigned128: u128,
    integer128: i128,
    float32: f32,
    float64: f64,
    vector: Vec<u8>,
    tuple: (u8, u16, u8),
    enumeration: TestEnum,
    string: String,
    maybe: Option<u16>,
}

impl TestStruct {
    fn random(rng: &mut Rng) -> Self {
        let len = (rng.next() % 256) as usize;
        let vector = (0..len).map(|_| rng.next() as u8).collect();
        let enumeration = match rng.next() % 4 {
            0 => TestEnum::Unit,
            1 => TestEnum::Newtype(rng.next() as u8),
            2 => TestEnum::Tuple(rng.next() as u8, rng.next() as u16),
            _ => TestEnum::Struct { field1: rng.next() as i32, field2: rng.character() },
        };
        let len = (rng.next() % 256) as usize;
        let string = (0..len).map(|_| rng.character()).collect();
        let maybe = if rng.next() % 2 == 0 { None } else { Some(rng.next() as u16 % 4) };
        TestStruct {
            character: rng.character(),
            unsigned8: rng.next() as u8,
            integer8: rng.next() as i8,
            unsigned16: rng.next() as u16,
            integer16: rng.next() as i16,
            unsigned32: rng.next() as u32,
            integer32: rng.next() as i32,
            unsigned64: rng.next(),
            integer64: rng.next() as i64,
            unsigned128: rng.wide(),
            integer128: rng.wide() as i128,
            float32: rng.unit_f32(),
            float64: rng.unit_f64(),
            vector,
            tuple: (rng.next() as u8, rng.next() as u16, rng.next() as u8),
            enumeration,
            string,
            maybe,
        }
    }
}

fn field(s: &mut Serializer, f: impl FnOnce(&mut Serializer)) {
    let mut e = s.dup();
    f(&mut e);
    s.serialize_field(e.as_bytes());
}

fn encode_enum(s: &mut Serializer, v: &TestEnum) {
    match v {
        TestEnum::Unit => s.serialize_variant(0),
        TestEnum::Newtype(a) => {
            s.serialize_variant(1);
            s.serialize_u8(*a);
        }
        TestEnum::Tuple(a, b) => {
            s.serialize_variant(2);
            s.begin_compound();
            field(s, |e| e.serialize_u8(*a));
            field(s, |e| e.serialize_u16(*b));
            s.end_fields();
        }
        TestEnum::Struct { field1, field2 } => {
            s.serialize_variant(3);
            s.begin_compound();
            field(s, |e| e.serialize_i32(*field1));
            field(s, |e| e.serialize_char(*field2));
            s.end_fields();
        }
    }
}

fn decode_enum(d: &mut Deserializer) -> Result<TestEnum> {
    match d.deserialize_variant()? {
        0 => Ok(TestEnum::Unit),
        1 => Ok(TestEnum::Newtype(d.deserialize_u8()?)),
        2 => Ok(TestEnum::Tuple(d.deserialize_u8()?, d.deserialize_u16()?)),
        3 => Ok(TestEnum::Struct { field1: d.deserialize_i32()?, field2: d.deserialize_char()? }),
        v => Err(Error::InvalidValue { value: v, reason: "unknown variant" }),
    }
}

fn encode(v: &TestStruct, high_precision: bool) -> Vec<u8> {
    let mut s = generate_header(high_precision);
    s.begin_compound();
    field(&mut s, |e| e.serialize_char(v.character));
    field(&mut s, |e| e.serialize_u8(v.unsigned8));
    field(&mut s, |e| e.serialize_i8(v.integer8));
    field(&mut s, |e| e.serialize_u16(v.unsigned16));
    field(&mut s, |e| e.serialize_i16(v.integer16));
    field(&mut s, |e| e.serialize_u32(v.unsigned32));
    field(&mut s, |e| e.serialize_i32(v.integer32));
    field(&mut s, |e| e.serialize_u64(v.unsigned64));
    field(&mut s, |e| e.serialize_i64(v.integer64));
    field(&mut s, |e| e.serialize_u128(v.unsigned128));
    field(&mut s, |e| e.serialize_i128(v.integer128));
    field(&mut s, |e| e.serialize_f32_bits(v.float32.to_bits()));
    field(&mut s, |e| e.serialize_f64_bits(v.float64.to_bits()));
    field(&mut s, |e| {
        e.begin_compound();
        for b in &v.vector {
            let mut x = e.dup();
            x.serialize_u8(*b);
            e.serialize_element(x.as_bytes());
        }
        e.end_seq();
    });
    field(&mut s, |e| {
        e.begin_compound();
        field(e, |x| x.serialize_u8(v.tuple.0));
        field(e, |x| x.serialize_u16(v.tuple.1));
        field(e, |x| x.serialize_u8(v.tuple.2));
        e.end_fields();
    });
    field(&mut s, |e| encode_enum(e, &v.enumeration));
    field(&mut s, |e| e.serialize_str(&v.string));
    field(&mut s, |e| match v.maybe {
        None => e.serialize_none(),
        Some(x) => {
            let mut inner = e.dup();
            inner.serialize_u16(x);
            e.serialize_some(inner.as_bytes());
        }
    });
    s.end_fields();
    s.into_bytes()
}

fn decode(bytes: &[u8]) -> Result<TestStruct> {
    let mut d = Deserializer::with_header(bytes)?;
    let character = d.deserialize_char()?;
    let unsigned8 = d.deserialize_u8()?;
    let integer8 = d.deserialize_i8()?;
    let unsigned16 = d.deserialize_u16()?;
    let integer16 = d.deserialize_i16()?;
    let unsigned32 = d.deserialize_u32()?;
    let integer32 = d.deserialize_i32()?;
    let unsigned64 = d.deserialize_u64()?;
    let integer64 = d.deserialize_i64()?;
    let unsigned128 = d.deserialize_u128()?;
    let integer128 = d.deserialize_i128()?;
    let float32 = f32::from_bits(d.deserialize_f32_bits()?);
    let float64 = f64::from_bits(d.deserialize_f64_bits()?);
    let n = d.deserialize_len()?;
    let mut vector = Vec::new();
    for _ in 0..n {
        vector.push(d.deserialize_u8()?);
    }
    let tuple = (d.deserialize_u8()?, d.deserialize_u16()?, d.deserialize_u8()?);
    let enumeration = decode_enum(&mut d)?;
    let string = d.deserialize_string()?;
    let maybe = if d.deserialize_option()? { Some(d.deserialize_u16()?) } else { None };
    Ok(TestStruct {
        character,
        unsigned8,
        integer8,
        unsigned16,
        integer16,
        unsigned32,
        integer32,
        unsigned64,
        integer64,
        unsigned128,
        integer128,
        float32,
        float64,
        vector,
        tuple,
        enumeration,
        string,
        maybe,
    })
}

#[test]
fn run_repeat() -> Result<()> {
    let mut rng = Rng(0x9e37_79b9_7f4a_7c15);
    for round in 0..2000 {
        let value = TestStruct::random(&mut rng);
        let high_precision = round % 2 == 1;
        let bytes = encode(&value, high_precision);
        let back = decode(&bytes)?;
        assert_eq!(back, value);
        assert_eq!(back.float32.to_bits(), value.float32.to_bits());
        assert_eq!(back.float64.to_bits(), value.float64.to_bits());
    }
    Ok(())
}

#[test]
fn every_variant_round_trips() -> Result<()> {
    let variants = [
        TestEnum::Unit,
        TestEnum::Newtype(200),
        TestEnum::Tuple(0, 65535),
        TestEnum::Struct { field1: -70000, field2: 'ℝ' },
    ];
    for (index, v) in variants.iter().enumerate() {
        let mut s = Serializer::new(Vec::new(), false);
        encode_enum(&mut s, v);
        let bytes = s.into_bytes();
        let mut d = Deserializer::new(&bytes, 0, false);
        assert_eq!(d.deserialize_variant()?, index as u32);
        let mut d = Deserializer::new(&bytes, 0, false);
        assert_eq!(&decode_enum(&mut d)?, v);
        assert!(matches!(d.deserialize_u8(), Err(Error::EOF)));
    }
    Ok(())
}

#[test]
fn float_bit_patterns_round_trip() -> Result<()> {
    let mut rng = Rng(12345);
    let mut f32s: Vec<u32> = vec![
        0x0000_0001, // smallest subnormal
        0x007f_ffff, // largest subnormal
        0x7f80_0000, // infinity
        0x7fc0_0001, // NaN with payload
        0xffc0_0001, // negative NaN with payload
        0x0000_0000,
        1.0f32.to_bits(),
        (-0.75f32).to_bits(),
        f32::MAX.to_bits(),
        f32::MIN.to_bits(),
        0x8000_0000, // negative zero
        0xff80_0000, // negative infinity
        (-1.0f32).to_bits(),
    ];
    for _ in 0..5000 {
        f32s.push(rng.next() as u32);
    }
    for bits in f32s {
        for precise in [false, true] {
            let mut s = Serializer::new(Vec::new(), precise);
            s.serialize_f32_bits(bits);
            let bytes = s.into_bytes();
            let back = Deserializer::new(&bytes, 0, precise).deserialize_f32_bits()?;
            assert_eq!(back, bits);
        }
    }
    let mut f64s: Vec<u64> = vec![
        1,
        0x7ff0_0000_0000_0000,
        0xfff0_0000_0000_0000,
        0x8000_0000_0000_0000,
        0x7ff8_0000_0000_0001,
        (-2.5f64).to_bits(),
        (-1.0f64).to_bits(),
    ];
    for _ in 0..5000 {
        f64s.push(rng.next());
    }
    for bits in f64s {
        for precise in [false, true] {
            let mut s = Serializer::new(Vec::new(), precise);
            s.serialize_f64_bits(bits);
            let bytes = s.into_bytes();
            let back = Deserializer::new(&bytes, 0, precise).deserialize_f64_bits()?;
            assert_eq!(back, bits);
        }
    }
    Ok(())
}

#[test]
fn negative_float_without_fraction_keeps_its_sign() -> Result<()> {
    for v in [-1.0f32, -2.0, -0.0, f32::NEG_INFINITY] {
        let mut s = Serializer::new(Vec::new(), false);
        s.serialize_f32_bits(v.to_bits());
        let bytes = s.into_bytes();
        let back = Deserializer::new(&bytes, 0, false).deserialize_f32_bits()?;
        assert_eq!(back, v.to_bits());
    }
    let mut s = Serializer::new(Vec::new(), false);
    s.serialize_f32_bits((-1.0f32).to_bits());
    assert_eq!(s.into_bytes(), [0x03, 0x00, 0x00, 0x80, 0x00]);
    Ok(())
}

#[test]
fn present_unit_round_trips() -> Result<()> {
    // `Some(())` followed by a `0u8`: the unit's encoding is empty.
    let mut s = Serializer::new(Vec::new(), false);
    let inner = s.dup();
    s.serialize_some(inner.as_bytes());
    s.serialize_u8(0);
    let bytes = s.into_bytes();
    assert_eq!(bytes, [0x01, 0x00]);
    let mut d = Deserializer::new(&bytes, 0, false);
    assert!(d.deserialize_option()?);
    assert_eq!(d.deserialize_u8()?, 0);
    Ok(())
}

#[test]
fn integers_round_trip_at_the_edges() -> Result<()> {
    for v in [0u16, 1, 2, 3, 255, 256, u16::MAX] {
        let mut s = Serializer::new(Vec::new(), false);
        s.serialize_u16(v);
        assert_eq!(Deserializer::new(s.as_bytes(), 0, false).deserialize_u16()?, v);
    }
    for v in [0i64, 1, 8, 9, -1, -128, -129, 127, 128, i64::MIN, i64::MAX] {
        let mut s = Serializer::new(Vec::new(), false);
        s.serialize_i64(v);
        assert_eq!(Deserializer::new(s.as_bytes(), 0, false).deserialize_i64()?, v);
    }
    for v in [0u128, 16, 17, u128::MAX] {
        let mut s = Serializer::new(Vec::new(), false);
        s.serialize_u128(v);
        assert_eq!(Deserializer::new(s.as_bytes(), 0, false).deserialize_u128()?, v);
    }
    for v in [0i128, 16, 17, -1, i128::MIN, i128::MAX] {
        let mut s = Serializer::new(Vec::new(), false);
        s.serialize_i128(v);
        assert_eq!(Deserializer::new(s.as_bytes(), 0, false).deserialize_i128()?, v);
    }
    Ok(())
}

#[test]
fn map_entries_round_trip() -> Result<()> {
    let entries = [("ABCD", 7u32), ("WXYZ", 70000), ("", 0)];
    let mut s = Serializer::new(Vec::new(), false);
    s.begin_compound();
    for (k, v) in entries {
        let mut e = s.dup();
        e.serialize_str(k);
        s.serialize_element(e.as_bytes());
        let mut e = s.dup();
        e.serialize_u32(v);
        s.serialize_field(e.as_bytes());
    }
    s.end_seq();
    let bytes = s.into_bytes();
    let mut d = Deserializer::new(&bytes, 0, false);
    assert_eq!(d.deserialize_len()?, 3);
    for (k, v) in entries {
        assert_eq!(d.deserialize_str()?, k);
        assert_eq!(d.deserialize_u32()?, v);
    }
    assert!(matches!(d.deserialize_u8(), Err(Error::EOF)));
    Ok(())
}

#[test]
fn truncated_struct_is_end_of_input() {
    let mut rng = Rng(7);
    let value = TestStruct::random(&mut rng);
    let bytes = encode(&value, false);
    for n in 0..bytes.len() {
        assert!(matches!(decode(&bytes[..n]), Err(Error::EOF)), "prefix of {} bytes", n);
    }
}
