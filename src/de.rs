//! The decoding side: reads each kind of value back from its compact form.
use vstd::prelude::*;
use vstd::string::StringSliceAdditionalSpecFns;
use vstd::utf8::{encode_utf8, is_scalar, valid_utf8};

use crate::buf::{u8_as_i8, Buf};
use crate::encoding::{
    byte_as_i8, dec_bytes, dec_f32, dec_f64, dec_int, dec_option, dec_uint, fits_signed,
    is_len_byte, le_value, pow256, too_wide, took_int, took_uint,
};
use crate::error::{Error, Result};
use crate::proofs::{
    lemma_le_value_bound, lemma_le_value_suffix, lemma_pow256_mono, lemma_pow256_widths,
    lemma_pow_two_values, lemma_sign_extended_fits,
};
use crate::{reverse_low_bits, sign_extend_le};

verus! {

pub struct Deserializer<'de> {
    input: Buf<'de>,
    version: u8,
    high_precision: bool,
}

impl<'de> Deserializer<'de> {
    /// The bytes not consumed yet.
    pub closed spec fn rest(&self) -> Seq<u8> {
        self.input.rest()
    }

    /// Whether floats are read as raw bit patterns.
    pub closed spec fn precise(&self) -> bool {
        self.high_precision
    }

    /// The format version the stream declared.
    pub closed spec fn stream_version(&self) -> u8 {
        self.version
    }

    /// A decoder over a payload without header, with the given settings.
    pub fn new(bytes: &'de [u8], version: u8, high_precision: bool) -> (r: Self)
        ensures
            r.rest() == bytes@,
            r.precise() == high_precision,
            r.stream_version() == version,
    {
        Deserializer { input: Buf::new(bytes), version, high_precision }
    }

    /// A decoder over a stream that begins with the two header bytes.
    pub fn with_header(bytes: &'de [u8]) -> (r: Result<Self>)
        ensures
            match r {
                Ok(d) => {
                    &&& bytes@.len() >= 2 && bytes@[0] == 0
                    &&& d.rest() == bytes@.skip(2)
                    &&& d.precise() == (bytes@[1] % 2 == 1)
                    &&& d.stream_version() == 0
                },
                Err(e) => {
                    &&& !(bytes@.len() >= 2 && bytes@[0] == 0)
                    &&& (e is UnsupportedVersion) == (bytes@.len() >= 1 && bytes@[0] != 0)
                    &&& (e is EOF) == (bytes@.len() == 0 || (bytes@[0] == 0 && bytes@.len() < 2))
                },
            },
    {
        if bytes.len() == 0 {
            return Err(Error::EOF);
        }
        let version = bytes[0];
        if version > 0 {
            return Err(Error::UnsupportedVersion);
        }
        if bytes.len() < 2 {
            return Err(Error::EOF);
        }
        let high_precision = bytes[1] % 2 == 1;
        let payload = vstd::slice::slice_subrange(bytes, 2, bytes.len());
        assert(payload@ =~= bytes@.skip(2));
        Ok(Self::new(payload, version, high_precision))
    }

    pub fn version(&self) -> (r: u8)
        ensures
            r == self.stream_version(),
    {
        self.version
    }

    pub fn high_precision(&self) -> (r: bool)
        ensures
            r == self.precise(),
    {
        self.high_precision
    }

    /// Reads a signed integer of a type `max_length` bytes wide.
    pub fn deserialize_int(&mut self, max_length: u8) -> (r: Result<i128>)
        requires
            1 <= max_length <= 16,
        ensures
            final(self).precise() == old(self).precise(),
            match r {
                Ok(v) => match dec_int(old(self).rest(), max_length as nat) {
                    Some((val, k)) => v == val && final(self).rest() == old(self).rest().skip(
                        k as int,
                    ),
                    None => false,
                },
                Err(e) => e is EOF && dec_int(old(self).rest(), max_length as nat) is None,
            },
            r matches Ok(v) ==> fits_signed(v as int, max_length as nat),
    {
        proof {
            lemma_pow256_widths();
            lemma_pow256_mono(0, (max_length - 1) as nat);
        }
        let byte = self.input.read_u8()?;
        if byte > max_length || byte == 0 {
            Ok(u8_as_i8(byte) as i128)
        } else {
            let bytes = self.input.read_slice(byte as usize)?;
            proof {
                assert(bytes@ =~= old(self).rest().subrange(1, 1 + byte));
                assert(self.rest() =~= old(self).rest().skip(1 + byte));
                lemma_sign_extended_fits(bytes@, max_length as nat);
            }
            Ok(sign_extend_le(bytes))
        }
    }

    /// Reads an unsigned integer of a type `max_length` bytes wide (255 for
    /// counts and lengths).
    pub fn deserialize_uint(&mut self, max_length: u8) -> (r: Result<u128>)
        ensures
            final(self).precise() == old(self).precise(),
            match r {
                Ok(v) => match dec_uint(old(self).rest(), max_length as nat) {
                    Some((val, k)) => v == val && final(self).rest() == old(self).rest().skip(
                        k as int,
                    ),
                    None => false,
                },
                Err(e) => {
                    &&& dec_uint(old(self).rest(), max_length as nat) is None
                    &&& (e is InvalidValue) == too_wide(old(self).rest(), max_length as nat)
                    &&& (e is EOF) == !too_wide(old(self).rest(), max_length as nat)
                },
            },
            r matches Ok(v) ==> (1 <= max_length <= 16 ==> v < pow256(max_length as nat)),
    {
        proof {
            lemma_pow256_widths();
            if max_length >= 1 {
                lemma_pow256_mono(1, max_length as nat);
            }
        }
        let byte = self.input.read_u8()?;
        if byte > max_length || byte == 0 {
            Ok(byte as u128)
        } else if (self.input.remaining() as u128) < byte as u128 {
            Err(Error::EOF)
        } else if byte > 16 {
            Err(Error::InvalidValue { value: byte as u32, reason: "integer wider than 16 bytes" })
        } else {
            let bytes = self.input.read_slice(byte as usize)?;
            proof {
                assert(bytes@ =~= old(self).rest().subrange(1, 1 + byte));
                assert(self.rest() =~= old(self).rest().skip(1 + byte));
                lemma_le_value_bound(bytes@);
                lemma_pow256_mono(byte as nat, max_length as nat);
            }
            Ok(le_to_u128(bytes))
        }
    }

    pub fn deserialize_bool(&mut self) -> (r: Result<bool>)
        ensures
            final(self).precise() == old(self).precise(),
            match r {
                Ok(v) => {
                    &&& old(self).rest().len() > 0
                    &&& old(self).rest()[0] == if v { 1u8 } else { 0u8 }
                    &&& final(self).rest() == old(self).rest().drop_first()
                },
                Err(e) => if old(self).rest().len() == 0 {
                    e is EOF
                } else {
                    old(self).rest()[0] > 1 && e == Error::InvalidValue {
                        value: old(self).rest()[0] as u32,
                        reason: "expected bool",
                    }
                },
            },
    {
        let byte = self.input.read_u8()?;
        if byte == 0 {
            Ok(false)
        } else if byte == 1 {
            Ok(true)
        } else {
            Err(Error::InvalidValue { value: byte as u32, reason: "expected bool" })
        }
    }

    pub fn deserialize_u8(&mut self) -> (r: Result<u8>)
        ensures
            final(self).precise() == old(self).precise(),
            match r {
                Ok(v) => {
                    &&& old(self).rest().len() > 0
                    &&& v == old(self).rest()[0]
                    &&& final(self).rest() == old(self).rest().drop_first()
                },
                Err(e) => old(self).rest().len() == 0 && e is EOF,
            },
    {
        self.input.read_u8()
    }

    pub fn deserialize_i8(&mut self) -> (r: Result<i8>)
        ensures
            final(self).precise() == old(self).precise(),
            match r {
                Ok(v) => {
                    &&& old(self).rest().len() > 0
                    &&& v == byte_as_i8(old(self).rest()[0])
                    &&& final(self).rest() == old(self).rest().drop_first()
                },
                Err(e) => old(self).rest().len() == 0 && e is EOF,
            },
    {
        self.input.read_i8()
    }

    pub fn deserialize_u16(&mut self) -> (r: Result<u16>)
        ensures
            final(self).precise() == old(self).precise(),
            match r {
                Ok(v) => took_uint(old(self).rest(), final(self).rest(), 2, v as nat),
                Err(e) => e is EOF && dec_uint(old(self).rest(), 2) is None,
            },
    {
        proof {
            lemma_pow256_widths();
        }
        let v = self.deserialize_uint(2)?;
        Ok(v as u16)
    }

    pub fn deserialize_i16(&mut self) -> (r: Result<i16>)
        ensures
            final(self).precise() == old(self).precise(),
            match r {
                Ok(v) => took_int(old(self).rest(), final(self).rest(), 2, v as int),
                Err(e) => e is EOF && dec_int(old(self).rest(), 2) is None,
            },
    {
        proof {
            lemma_pow256_widths();
        }
        let v = self.deserialize_int(2)?;
        Ok(v as i16)
    }

    pub fn deserialize_u32(&mut self) -> (r: Result<u32>)
        ensures
            final(self).precise() == old(self).precise(),
            match r {
                Ok(v) => took_uint(old(self).rest(), final(self).rest(), 4, v as nat),
                Err(e) => e is EOF && dec_uint(old(self).rest(), 4) is None,
            },
    {
        proof {
            lemma_pow256_widths();
        }
        let v = self.deserialize_uint(4)?;
        Ok(v as u32)
    }

    pub fn deserialize_i32(&mut self) -> (r: Result<i32>)
        ensures
            final(self).precise() == old(self).precise(),
            match r {
                Ok(v) => took_int(old(self).rest(), final(self).rest(), 4, v as int),
                Err(e) => e is EOF && dec_int(old(self).rest(), 4) is None,
            },
    {
        proof {
            lemma_pow256_widths();
        }
        let v = self.deserialize_int(4)?;
        Ok(v as i32)
    }

    pub fn deserialize_u64(&mut self) -> (r: Result<u64>)
        ensures
            final(self).precise() == old(self).precise(),
            match r {
                Ok(v) => took_uint(old(self).rest(), final(self).rest(), 8, v as nat),
                Err(e) => e is EOF && dec_uint(old(self).rest(), 8) is None,
            },
    {
        proof {
            lemma_pow256_widths();
        }
        let v = self.deserialize_uint(8)?;
        Ok(v as u64)
    }

    pub fn deserialize_i64(&mut self) -> (r: Result<i64>)
        ensures
            final(self).precise() == old(self).precise(),
            match r {
                Ok(v) => took_int(old(self).rest(), final(self).rest(), 8, v as int),
                Err(e) => e is EOF && dec_int(old(self).rest(), 8) is None,
            },
    {
        proof {
            lemma_pow256_widths();
        }
        let v = self.deserialize_int(8)?;
        Ok(v as i64)
    }

    pub fn deserialize_u128(&mut self) -> (r: Result<u128>)
        ensures
            final(self).precise() == old(self).precise(),
            match r {
                Ok(v) => took_uint(old(self).rest(), final(self).rest(), 16, v as nat),
                Err(e) => e is EOF && dec_uint(old(self).rest(), 16) is None,
            },
    {
        proof {
            lemma_pow256_widths();
        }
        let v = self.deserialize_uint(16)?;
        Ok(v as u128)
    }

    pub fn deserialize_i128(&mut self) -> (r: Result<i128>)
        ensures
            final(self).precise() == old(self).precise(),
            match r {
                Ok(v) => took_int(old(self).rest(), final(self).rest(), 16, v as int),
                Err(e) => e is EOF && dec_int(old(self).rest(), 16) is None,
            },
    {
        proof {
            lemma_pow256_widths();
        }
        let v = self.deserialize_int(16)?;
        Ok(v as i128)
    }

    /// Reads a character: its code point as an unsigned 4-byte integer,
    /// which must be a Unicode scalar value.
    pub fn deserialize_char(&mut self) -> (r: Result<char>)
        ensures
            final(self).precise() == old(self).precise(),
            match r {
                Ok(c) => is_scalar(c as u32) && took_uint(
                    old(self).rest(),
                    final(self).rest(),
                    4,
                    (c as u32) as nat,
                ),
                Err(e) => match dec_uint(old(self).rest(), 4) {
                    Some((v, k)) => !is_scalar(v as u32) && e == Error::InvalidValue {
                        value: v as u32,
                        reason: "expected valid character",
                    },
                    None => e is EOF,
                },
            },
    {
        let code = self.deserialize_u32()?;
        match char_from_u32(code) {
            Some(c) => Ok(c),
            None => Err(Error::InvalidValue { value: code, reason: "expected valid character" }),
        }
    }

    /// Reads text: a byte run that must be UTF-8, borrowed from the input.
    pub fn deserialize_str(&mut self) -> (r: Result<&'de str>)
        ensures
            final(self).precise() == old(self).precise(),
            match r {
                Ok(s) => match dec_bytes(old(self).rest()) {
                    Some((b, k)) => {
                        &&& valid_utf8(b)
                        &&& s.spec_bytes() == b
                        &&& final(self).rest() == old(self).rest().skip(k as int)
                    },
                    None => false,
                },
                Err(e) => match dec_bytes(old(self).rest()) {
                    Some((b, k)) => !valid_utf8(b) && e is InvalidUTF8,
                    None => {
                        &&& (e is InvalidValue) == too_wide(old(self).rest(), 255)
                        &&& (e is EOF) == !too_wide(old(self).rest(), 255)
                    },
                },
            },
    {
        let bytes = self.deserialize_byte_arr()?;
        match str_from_utf8(bytes) {
            Some(s) => Ok(s),
            None => Err(Error::InvalidUTF8),
        }
    }

    /// Reads text into an owned string.
    pub fn deserialize_string(&mut self) -> (r: Result<String>)
        ensures
            final(self).precise() == old(self).precise(),
            match r {
                Ok(s) => match dec_bytes(old(self).rest()) {
                    Some((b, k)) => {
                        &&& valid_utf8(b)
                        &&& encode_utf8(s@) == b
                        &&& final(self).rest() == old(self).rest().skip(k as int)
                    },
                    None => false,
                },
                Err(e) => match dec_bytes(old(self).rest()) {
                    Some((b, k)) => !valid_utf8(b) && e is InvalidUTF8,
                    None => {
                        &&& (e is InvalidValue) == too_wide(old(self).rest(), 255)
                        &&& (e is EOF) == !too_wide(old(self).rest(), 255)
                    },
                },
            },
    {
        let s = self.deserialize_str()?;
        Ok(s.to_owned())
    }

    /// Reads a byte run into an owned vector.
    pub fn deserialize_byte_buf(&mut self) -> (r: Result<Vec<u8>>)
        ensures
            final(self).precise() == old(self).precise(),
            match r {
                Ok(b) => match dec_bytes(old(self).rest()) {
                    Some((val, k)) => b@ == val && final(self).rest() == old(self).rest().skip(
                        k as int,
                    ),
                    None => false,
                },
                Err(e) => {
                    &&& dec_bytes(old(self).rest()) is None
                    &&& (e is InvalidValue) == too_wide(old(self).rest(), 255)
                    &&& (e is EOF) == !too_wide(old(self).rest(), 255)
                },
            },
    {
        let bytes = self.deserialize_byte_arr()?;
        Ok(vstd::slice::slice_to_vec(bytes))
    }

    /// Reads the tag of an optional value: `false` for absent (the `0` is
    /// consumed), `true` for present, with the `1` marker consumed and any
    /// other byte left for the value itself.
    pub fn deserialize_option(&mut self) -> (r: Result<bool>)
        ensures
            final(self).precise() == old(self).precise(),
            match r {
                Ok(present) => match dec_option(old(self).rest()) {
                    Some((p, k)) => present == p && final(self).rest() == old(self).rest().skip(
                        k as int,
                    ),
                    None => false,
                },
                Err(e) => e is EOF && dec_option(old(self).rest()) is None,
            },
    {
        let tag = self.input.peek_u8()?;
        if tag == 0 {
            self.input.read_u8()?;
            Ok(false)
        } else if tag == 1 {
            self.input.read_u8()?;
            Ok(true)
        } else {
            assert(old(self).rest().skip(0) =~= old(self).rest());
            Ok(true)
        }
    }

    /// Reads the count of a sequence or a map.
    pub fn deserialize_len(&mut self) -> (r: Result<usize>)
        ensures
            final(self).precise() == old(self).precise(),
            match r {
                Ok(n) => took_uint(old(self).rest(), final(self).rest(), 255, n as nat),
                Err(e) => match dec_uint(old(self).rest(), 255) {
                    Some((v, k)) => v > usize::MAX && e == Error::InvalidValue {
                        value: u32::MAX,
                        reason: "count does not fit in usize",
                    },
                    None => {
                        &&& (e is InvalidValue) == too_wide(old(self).rest(), 255)
                        &&& (e is EOF) == !too_wide(old(self).rest(), 255)
                    },
                },
            },
    {
        let n = self.deserialize_uint(255)?;
        if n > usize::MAX as u128 {
            Err(Error::InvalidValue { value: u32::MAX, reason: "count does not fit in usize" })
        } else {
            Ok(n as usize)
        }
    }

    /// Reads the ordinal of a union's variant; its payload follows.
    pub fn deserialize_variant(&mut self) -> (r: Result<u32>)
        ensures
            final(self).precise() == old(self).precise(),
            match r {
                Ok(v) => took_uint(old(self).rest(), final(self).rest(), 4, v as nat),
                Err(e) => e is EOF && dec_uint(old(self).rest(), 4) is None,
            },
    {
        self.deserialize_u32()
    }

    /// A value of unknown shape cannot be read from a format without type tags.
    pub fn deserialize_any(&self) -> (r: Result<()>)
        ensures
            r == Err::<(), Error>(
                Error::Unsupported {
                    name: "deserialize_any",
                    reason: "SBOF is not a self-describing format",
                },
            ),
    {
        Err(
            Error::Unsupported {
                name: "deserialize_any",
                reason: "SBOF is not a self-describing format",
            },
        )
    }

    /// Field names are not written, so there is no identifier to read.
    pub fn deserialize_identifier(&self) -> (r: Result<()>)
        ensures
            r == Err::<(), Error>(
                Error::Unsupported {
                    name: "deserialize_identifier",
                    reason: "SBOF is not a self-describing format",
                },
            ),
    {
        Err(
            Error::Unsupported {
                name: "deserialize_identifier",
                reason: "SBOF is not a self-describing format",
            },
        )
    }

    /// A value cannot be skipped without knowing its shape.
    pub fn deserialize_ignored_any(&self) -> (r: Result<()>)
        ensures
            r == Err::<(), Error>(
                Error::Unsupported {
                    name: "deserialize_ignored_any",
                    reason: "SBOF is not a self-describing format",
                },
            ),
    {
        Err(
            Error::Unsupported {
                name: "deserialize_ignored_any",
                reason: "SBOF is not a self-describing format",
            },
        )
    }

    /// Reads a 32-bit float's bit pattern.
    pub fn deserialize_f32_bits(&mut self) -> (r: Result<u32>)
        ensures
            final(self).precise() == old(self).precise(),
            match r {
                Ok(b) => match dec_f32(old(self).rest(), old(self).precise()) {
                    Some((val, k)) => b == val && final(self).rest() == old(self).rest().skip(
                        k as int,
                    ),
                    None => false,
                },
                Err(e) => e is EOF && dec_f32(old(self).rest(), old(self).precise()) is None,
            },
    {
        proof {
            lemma_pow256_widths();
            lemma_pow_two_values();
        }
        if self.high_precision {
            let bytes = self.input.read_slice(4)?;
            proof {
                lemma_le_value_bound(bytes@);
            }
            return Ok(le_to_u128(bytes) as u32);
        }
        let significand = self.deserialize_int(4)?;
        let ghost mid = self.rest();
        let exponent = self.input.read_u8()?;
        let magnitude: u128 = if significand < 0 {
            (-(significand + 1)) as u128 + 1
        } else {
            significand as u128
        };
        let m = reverse_low_bits((magnitude % 0x80_0000) as u64, 23) as u32;
        let field = (exponent as u32 + 127) % 256;
        let sign: u32 = if significand < 0 {
            0x8000_0000
        } else {
            0
        };
        proof {
            let k = old(self).rest().len() - mid.len();
            assert(mid =~= old(self).rest().skip(k));
            assert(self.rest() =~= old(self).rest().skip(k + 1));
        }
        Ok(m + field * 0x80_0000 + sign)
    }

    /// Reads a 64-bit float's bit pattern.
    pub fn deserialize_f64_bits(&mut self) -> (r: Result<u64>)
        ensures
            final(self).precise() == old(self).precise(),
            match r {
                Ok(b) => match dec_f64(old(self).rest(), old(self).precise()) {
                    Some((val, k)) => b == val && final(self).rest() == old(self).rest().skip(
                        k as int,
                    ),
                    None => false,
                },
                Err(e) => e is EOF && dec_f64(old(self).rest(), old(self).precise()) is None,
            },
    {
        proof {
            lemma_pow256_widths();
            lemma_pow_two_values();
        }
        if self.high_precision {
            let bytes = self.input.read_slice(8)?;
            proof {
                lemma_le_value_bound(bytes@);
            }
            return Ok(le_to_u128(bytes) as u64);
        }
        let significand = self.deserialize_int(8)?;
        let ghost mid = self.rest();
        proof {
            let k = old(self).rest().len() - mid.len();
            assert(mid =~= old(self).rest().skip(k));
        }
        let exponent = self.deserialize_int(2)?;
        let magnitude: u128 = if significand < 0 {
            (-(significand + 1)) as u128 + 1
        } else {
            significand as u128
        };
        let m = reverse_low_bits((magnitude % 0x10_0000_0000_0000) as u64, 52);
        let field = ((exponent + 1023 + 0x8000) as u64) % 2048;
        let sign: u64 = if significand < 0 {
            0x8000_0000_0000_0000
        } else {
            0
        };
        proof {
            let k = old(self).rest().len() - mid.len();
            let k2 = mid.len() - self.rest().len();
            assert(self.rest() =~= old(self).rest().skip(k + k2));
        }
        Ok(m + field * 0x10_0000_0000_0000 + sign)
    }

    /// Reads a length-prefixed byte run, borrowed from the input.
    pub fn deserialize_byte_arr(&mut self) -> (r: Result<&'de [u8]>)
        ensures
            final(self).precise() == old(self).precise(),
            match r {
                Ok(b) => match dec_bytes(old(self).rest()) {
                    Some((val, k)) => b@ == val && final(self).rest() == old(self).rest().skip(
                        k as int,
                    ),
                    None => false,
                },
                Err(e) => {
                    &&& dec_bytes(old(self).rest()) is None
                    &&& (e is InvalidValue) == too_wide(old(self).rest(), 255)
                    &&& (e is EOF) == !too_wide(old(self).rest(), 255)
                },
            },
    {
        let len = self.deserialize_uint(255)?;
        let ghost mid = self.rest();
        if len > self.input.remaining() as u128 {
            Err(Error::EOF)
        } else {
            let bytes = self.input.read_slice(len as usize)?;
            proof {
                let k = old(self).rest().len() - mid.len();
                assert(mid =~= old(self).rest().skip(k));
                assert(bytes@ =~= old(self).rest().subrange(k, k + len));
                assert(self.rest() =~= old(self).rest().skip(k + len));
            }
            Ok(bytes)
        }
    }
}

/// Relies on `char::from_u32`: `Some` exactly for Unicode scalar values,
/// holding the character with that code point.
#[verifier::external_body]
fn char_from_u32(v: u32) -> (r: Option<char>)
    ensures
        r is Some <==> is_scalar(v),
        r matches Some(c) ==> c as u32 == v,
{
    char::from_u32(v)
}

/// Relies on `core::str::from_utf8`: success exactly for well-formed UTF-8,
/// borrowing the same bytes as text.
#[verifier::external_body]
fn str_from_utf8<'a>(b: &'a [u8]) -> (r: Option<&'a str>)
    ensures
        r is Some <==> valid_utf8(b@),
        r matches Some(s) ==> s.spec_bytes() == b@,
{
    core::str::from_utf8(b).ok()
}

/// The unsigned value of at most sixteen little-endian bytes.
fn le_to_u128(bytes: &[u8]) -> (r: u128)
    requires
        bytes@.len() <= 16,
    ensures
        r == le_value(bytes@),
{
    let n = bytes.len();
    let mut acc: u128 = 0;
    let mut i: usize = n;
    proof {
        lemma_pow256_widths();
    }
    assert(bytes@.subrange(n as int, n as int) =~= Seq::<u8>::empty());
    while i > 0
        invariant
            i <= n,
            n == bytes@.len(),
            n <= 16,
            acc == le_value(bytes@.subrange(i as int, n as int)),
            pow256(16) == u128::MAX + 1,
        decreases i,
    {
        i = i - 1;
        proof {
            lemma_le_value_suffix(bytes@, i as int);
            lemma_le_value_bound(bytes@.subrange(i as int, n as int));
            lemma_pow256_mono((n - i) as nat, 16);
        }
        acc = acc * 256 + bytes[i] as u128;
    }
    assert(bytes@.subrange(0, n as int) =~= bytes@);
    acc
}

} // verus!
