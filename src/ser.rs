//! The encoding side: an append-only byte sink that writes each kind of
//! value in the compact form.
use vstd::prelude::*;
use vstd::string::StringSliceAdditionalSpecFns;

use crate::encoding::{
    enc_bytes, enc_f32, enc_f64, enc_int, enc_some, enc_uint, f32_exponent, f32_mantissa, f32_negative, f64_exponent,
    f64_mantissa, f64_negative, fits_signed, le_bytes, mag_len, pow256, slen, twos, ulen,
};
use crate::proofs::{
    lemma_complement_step, lemma_mag_len, lemma_mag_len_le, lemma_pow256_widths, lemma_ulen,
    lemma_ulen_le, lemma_pow_two_values,
};
use crate::reverse_low_bits;

verus! {

/// The two header bytes of a stream: version 0, then the feature flags.
pub open spec fn header_bytes(high_precision: bool) -> Seq<u8> {
    seq![0u8, if high_precision { 1u8 } else { 0u8 }]
}

pub struct Serializer {
    inner: Vec<u8>,
    temp_bytes: Vec<u8>,
    temp_len: usize,
    high_precision: bool,
}

impl Serializer {
    /// The bytes written so far.
    pub closed spec fn output(&self) -> Seq<u8> {
        self.inner@
    }

    /// The encoded members of the composite value being assembled.
    pub closed spec fn pending(&self) -> Seq<u8> {
        self.temp_bytes@
    }

    /// How many counted members `pending` holds.
    pub closed spec fn pending_count(&self) -> nat {
        self.temp_len as nat
    }

    /// Whether floats are written as raw bit patterns.
    pub closed spec fn precise(&self) -> bool {
        self.high_precision
    }

    /// `self` is `before` with `bytes` appended to the output.
    pub open spec fn wrote(self, before: Self, bytes: Seq<u8>) -> bool {
        &&& self.output() == before.output() + bytes
        &&& self.pending() == before.pending()
        &&& self.pending_count() == before.pending_count()
        &&& self.precise() == before.precise()
    }

    pub fn new(inner: Vec<u8>, high_precision: bool) -> (r: Self)
        ensures
            r.output() == inner@,
            r.pending() == Seq::<u8>::empty(),
            r.pending_count() == 0,
            r.precise() == high_precision,
    {
        Serializer { inner, temp_bytes: Vec::new(), temp_len: 0, high_precision }
    }

    /// A fresh sink with the same settings, for encoding a nested value on
    /// its own.
    pub fn dup(&self) -> (r: Self)
        ensures
            r.output() == Seq::<u8>::empty(),
            r.pending() == Seq::<u8>::empty(),
            r.pending_count() == 0,
            r.precise() == self.precise(),
    {
        Self::new(Vec::new(), self.high_precision)
    }

    pub fn high_precision(&self) -> (r: bool)
        ensures
            r == self.precise(),
    {
        self.high_precision
    }

    /// How many counted members have been added since the composite began.
    pub fn pending_len(&self) -> (r: usize)
        ensures
            r == self.pending_count(),
    {
        self.temp_len
    }

    pub fn as_bytes(&self) -> (r: &[u8])
        ensures
            r@ == self.output(),
    {
        self.inner.as_slice()
    }

    pub fn into_bytes(self) -> (r: Vec<u8>)
        ensures
            r@ == self.output(),
    {
        self.inner
    }

    /// Writes `v` for an unsigned type of `width` bytes.
    pub fn serialize_uint(&mut self, v: u128, width: u8)
        requires
            1 <= width,
        ensures
            final(self).wrote(*old(self), enc_uint(v as nat, width as nat)),
    {
        let l = uint_width(v);
        proof {
            lemma_ulen(v as nat);
            lemma_pow256_widths();
        }
        if l == 1 && (v == 0 || v > width as u128) {
            push_le(&mut self.inner, v, 1, false);
        } else {
            self.inner.push(l as u8);
            push_le(&mut self.inner, v, l, false);
        }
        assert(self.output() =~= old(self).output() + enc_uint(v as nat, width as nat));
    }

    /// Writes `v` for a signed type of `width` bytes.
    pub fn serialize_int(&mut self, v: i128, width: u8)
        requires
            1 <= width <= 16,
        ensures
            final(self).wrote(*old(self), enc_int(v as int, width as nat)),
    {
        let negative = v < 0;
        let m: u128 = if negative {
            (-(v + 1)) as u128
        } else {
            v as u128
        };
        proof {
            lemma_pow256_widths();
        }
        let l = mag_width(m);
        proof {
            lemma_mag_len(m as nat);
            assert(slen(v as int) == l);
            assert(pow256(l as nat) == 256 * pow256((l - 1) as nat));
            if negative {
                assert(twos(v as int, l as nat) == pow256(l as nat) - 1 - m);
            }
        }
        if l == 1 && !(1 <= v && v <= width as i128) {
            push_le(&mut self.inner, m, 1, negative);
        } else {
            self.inner.push(l as u8);
            push_le(&mut self.inner, m, l, negative);
        }
        assert(self.output() =~= old(self).output() + enc_int(v as int, width as nat));
    }

    /// Writes a 32-bit float given by its bit pattern: raw in high-precision
    /// mode, else as the reversed fraction (signed, 4-byte width) and the
    /// unbiased exponent byte.
    pub fn serialize_f32_bits(&mut self, bits: u32)
        ensures
            final(self).wrote(*old(self), enc_f32(bits, old(self).precise())),
    {
        proof {
            lemma_pow256_widths();
            lemma_pow_two_values();
        }
        if self.high_precision {
            push_le(&mut self.inner, bits as u128, 4, false);
            return ;
        }
        let high = bits / 0x80_0000;
        let mantissa = bits % 0x80_0000;
        let exponent = high % 256;
        let r = reverse_low_bits(mantissa as u64, 23) as i128;
        let significand: i128 = if high >= 256 {
            if r == 0 {
                -0x80_0000
            } else {
                -r
            }
        } else {
            r
        };
        assert(high as nat == bits as nat / 0x80_0000);
        assert(exponent == f32_exponent(bits));
        assert(mantissa == f32_mantissa(bits));
        self.serialize_int(significand, 4);
        self.inner.push(((exponent + 129) % 256) as u8);
        assert(self.output() =~= old(self).output() + enc_f32(bits, old(self).precise()));
    }

    /// Writes a 64-bit float given by its bit pattern: raw in high-precision
    /// mode, else as the reversed fraction (signed, 8-byte width) and the
    /// unbiased exponent (signed, 2-byte width).
    pub fn serialize_f64_bits(&mut self, bits: u64)
        ensures
            final(self).wrote(*old(self), enc_f64(bits, old(self).precise())),
    {
        proof {
            lemma_pow256_widths();
            lemma_pow_two_values();
        }
        if self.high_precision {
            push_le(&mut self.inner, bits as u128, 8, false);
            return ;
        }
        let high = bits / 0x10_0000_0000_0000;
        let mantissa = bits % 0x10_0000_0000_0000;
        let exponent = high % 2048;
        let r = reverse_low_bits(mantissa, 52) as i128;
        let significand: i128 = if high >= 2048 {
            if r == 0 {
                -0x10_0000_0000_0000
            } else {
                -r
            }
        } else {
            r
        };
        assert(exponent == f64_exponent(bits));
        assert(mantissa == f64_mantissa(bits));
        self.serialize_int(significand, 8);
        self.serialize_int(exponent as i128 - 1023, 2);
        assert(self.output() =~= old(self).output() + enc_f64(bits, old(self).precise()));
    }

    pub fn serialize_bool(&mut self, v: bool)
        ensures
            final(self).wrote(*old(self), seq![if v { 1u8 } else { 0u8 }]),
    {
        self.inner.push(if v {
            1
        } else {
            0
        });
        assert(self.output() =~= old(self).output() + seq![if v { 1u8 } else { 0u8 }]);
    }

    pub fn serialize_u8(&mut self, v: u8)
        ensures
            final(self).wrote(*old(self), seq![v]),
    {
        self.inner.push(v);
        assert(self.output() =~= old(self).output() + seq![v]);
    }

    /// Writes the byte of `v`'s two's complement.
    pub fn serialize_i8(&mut self, v: i8)
        ensures
            final(self).wrote(*old(self), seq![twos(v as int, 1) as u8]),
    {
        proof {
            lemma_pow256_widths();
        }
        let b: u8 = if v < 0 {
            (v as i16 + 256) as u8
        } else {
            v as u8
        };
        self.inner.push(b);
        assert(self.output() =~= old(self).output() + seq![twos(v as int, 1) as u8]);
    }

    pub fn serialize_u16(&mut self, v: u16)
        ensures
            final(self).wrote(*old(self), enc_uint(v as nat, 2)),
    {
        self.serialize_uint(v as u128, 2);
    }

    pub fn serialize_i16(&mut self, v: i16)
        ensures
            final(self).wrote(*old(self), enc_int(v as int, 2)),
    {
        self.serialize_int(v as i128, 2);
    }

    pub fn serialize_u32(&mut self, v: u32)
        ensures
            final(self).wrote(*old(self), enc_uint(v as nat, 4)),
    {
        self.serialize_uint(v as u128, 4);
    }

    pub fn serialize_i32(&mut self, v: i32)
        ensures
            final(self).wrote(*old(self), enc_int(v as int, 4)),
    {
        self.serialize_int(v as i128, 4);
    }

    pub fn serialize_u64(&mut self, v: u64)
        ensures
            final(self).wrote(*old(self), enc_uint(v as nat, 8)),
    {
        self.serialize_uint(v as u128, 8);
    }

    pub fn serialize_i64(&mut self, v: i64)
        ensures
            final(self).wrote(*old(self), enc_int(v as int, 8)),
    {
        self.serialize_int(v as i128, 8);
    }

    pub fn serialize_u128(&mut self, v: u128)
        ensures
            final(self).wrote(*old(self), enc_uint(v as nat, 16)),
    {
        self.serialize_uint(v, 16);
    }

    pub fn serialize_i128(&mut self, v: i128)
        ensures
            final(self).wrote(*old(self), enc_int(v as int, 16)),
    {
        self.serialize_int(v, 16);
    }

    /// Writes a character as its code point, an unsigned 4-byte integer.
    pub fn serialize_char(&mut self, v: char)
        ensures
            final(self).wrote(*old(self), enc_uint((v as u32) as nat, 4)),
    {
        self.serialize_uint(v as u32 as u128, 4);
    }

    /// Writes a byte run: its length, then the bytes.
    pub fn serialize_bytes(&mut self, v: &[u8])
        ensures
            final(self).wrote(*old(self), enc_bytes(v@)),
    {
        self.serialize_usize(v.len());
        self.inner.extend_from_slice(v);
        assert(self.output() =~= old(self).output() + enc_bytes(v@));
    }

    /// Writes text as the byte run of its UTF-8 encoding.
    pub fn serialize_str(&mut self, v: &str)
        ensures
            final(self).wrote(*old(self), enc_bytes(v.spec_bytes())),
    {
        self.serialize_bytes(v.as_bytes());
    }

    /// Writes an absent optional value.
    pub fn serialize_none(&mut self)
        ensures
            final(self).wrote(*old(self), seq![0u8]),
    {
        self.serialize_bool(false);
    }

    /// Writes a present optional value, given the bytes that a fresh sink
    /// with the same settings wrote for the value itself.
    pub fn serialize_some(&mut self, encoded: &[u8])
        ensures
            final(self).wrote(*old(self), enc_some(encoded@)),
    {
        if encoded.len() == 0 || encoded[0] <= 1 {
            self.serialize_bool(true);
        }
        self.inner.extend_from_slice(encoded);
        assert(self.output() =~= old(self).output() + enc_some(encoded@));
    }

    /// Writes the ordinal of a union's variant, an unsigned 4-byte integer;
    /// the payload follows.
    pub fn serialize_variant(&mut self, variant_index: u32)
        ensures
            final(self).wrote(*old(self), enc_uint(variant_index as nat, 4)),
    {
        self.serialize_uint(variant_index as u128, 4);
    }

    /// Starts assembling the members of a composite value.
    pub fn begin_compound(&mut self)
        ensures
            final(self).output() == old(self).output(),
            final(self).pending() == Seq::<u8>::empty(),
            final(self).pending_count() == 0,
            final(self).precise() == old(self).precise(),
    {
        self.temp_bytes.clear();
        self.temp_len = 0;
    }

    /// Adds a counted member (an element of a sequence, a key of a map),
    /// given the bytes that a fresh sink with the same settings wrote for it.
    pub fn serialize_element(&mut self, encoded: &[u8])
        requires
            old(self).pending_count() < usize::MAX,
        ensures
            final(self).output() == old(self).output(),
            final(self).pending() == old(self).pending() + encoded@,
            final(self).pending_count() == old(self).pending_count() + 1,
            final(self).precise() == old(self).precise(),
    {
        self.temp_len = self.temp_len + 1;
        self.temp_bytes.extend_from_slice(encoded);
        assert(self.pending() =~= old(self).pending() + encoded@);
    }

    /// Adds a member that is not counted (a field of a tuple or record, the
    /// value of a map entry), given the bytes that a fresh sink with the same
    /// settings wrote for it.
    pub fn serialize_field(&mut self, encoded: &[u8])
        ensures
            final(self).output() == old(self).output(),
            final(self).pending() == old(self).pending() + encoded@,
            final(self).pending_count() == old(self).pending_count(),
            final(self).precise() == old(self).precise(),
    {
        self.temp_bytes.extend_from_slice(encoded);
        assert(self.pending() =~= old(self).pending() + encoded@);
    }

    /// Ends a sequence or a map: writes the count, then the members.
    pub fn end_seq(&mut self)
        ensures
            final(self).wrote(
                *old(self),
                enc_uint(old(self).pending_count(), 255) + old(self).pending(),
            ),
    {
        let len = self.temp_len;
        self.serialize_usize(len);
        self.inner.extend_from_slice(self.temp_bytes.as_slice());
        assert(self.output() =~= old(self).output() + (enc_uint(old(self).pending_count(), 255)
            + old(self).pending()));
    }

    /// Ends a tuple, a record or a union's payload: writes the members back
    /// to back.
    pub fn end_fields(&mut self)
        ensures
            final(self).wrote(*old(self), old(self).pending()),
    {
        self.inner.extend_from_slice(self.temp_bytes.as_slice());
        assert(self.output() =~= old(self).output() + old(self).pending());
    }

    /// Writes a count or a length: unsigned, with every value above 0
    /// length-prefixed.
    pub fn serialize_usize(&mut self, val: usize)
        ensures
            final(self).wrote(*old(self), enc_uint(val as nat, 255)),
    {
        self.serialize_uint(val as u128, 255);
    }
}

/// A sink that begins with the stream header for the given settings.
pub fn generate_header(high_precision: bool) -> (r: Serializer)
    ensures
        r.output() == header_bytes(high_precision),
        r.pending() == Seq::<u8>::empty(),
        r.pending_count() == 0,
        r.precise() == high_precision,
{
    let feature_flags: u8 = if high_precision {
        1
    } else {
        0
    };
    let header = vec![0x00u8, feature_flags];
    let r = Serializer::new(header, high_precision);
    assert(r.output() =~= header_bytes(high_precision));
    r
}

/// The least number of bytes that holds `v`.
fn uint_width(v: u128) -> (l: usize)
    ensures
        l == ulen(v as nat),
        1 <= l <= 16,
{
    proof {
        lemma_pow256_widths();
        lemma_ulen_le(v as nat, 16);
    }
    let mut l: usize = 1;
    let mut x = v;
    while x >= 256
        invariant
            ulen(v as nat) == l - 1 + ulen(x as nat),
            ulen(v as nat) <= 16,
            1 <= l,
        decreases x,
    {
        proof {
            lemma_ulen((x / 256) as nat);
        }
        x = x / 256;
        l = l + 1;
    }
    l
}

/// The least number of bytes whose top bit stays clear when they hold `m`.
fn mag_width(m: u128) -> (l: usize)
    requires
        m <= i128::MAX,
    ensures
        l == mag_len(m as nat),
        1 <= l <= 16,
{
    proof {
        lemma_pow256_widths();
        lemma_mag_len_le(m as nat, 16);
    }
    let mut l: usize = 1;
    let mut x = m;
    while x >= 128
        invariant
            mag_len(m as nat) == l - 1 + mag_len(x as nat),
            mag_len(m as nat) <= 16,
            1 <= l,
        decreases x,
    {
        proof {
            lemma_mag_len((x / 256) as nat);
        }
        x = x / 256;
        l = l + 1;
    }
    l
}

/// Appends the `n` low bytes of `v` (or of its bitwise complement on `n`
/// bytes, when `flip`), least significant first.
fn push_le(out: &mut Vec<u8>, v: u128, n: usize, flip: bool)
    requires
        v < pow256(n as nat),
    ensures
        final(out)@ == old(out)@ + if flip {
            le_bytes((pow256(n as nat) - 1 - v) as nat, n as nat)
        } else {
            le_bytes(v as nat, n as nat)
        },
{
    let ghost full = if flip {
        le_bytes((pow256(n as nat) - 1 - v) as nat, n as nat)
    } else {
        le_bytes(v as nat, n as nat)
    };
    let mut x = v;
    let mut i: usize = 0;
    while i < n
        invariant
            i <= n,
            x < pow256((n - i) as nat),
            old(out)@ + full == out@ + if flip {
                le_bytes((pow256((n - i) as nat) - 1 - x) as nat, (n - i) as nat)
            } else {
                le_bytes(x as nat, (n - i) as nat)
            },
        decreases n - i,
    {
        proof {
            lemma_complement_step(x as nat, (n - i) as nat);
        }
        let b = (x % 256) as u8;
        if flip {
            out.push(255 - b);
        } else {
            out.push(b);
        }
        x = x / 256;
        i = i + 1;
    }
    assert(out@ =~= old(out)@ + full);
}

} // verus!
