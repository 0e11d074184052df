//! Mathematical model of the byte format: little-endian values, the
//! minimal-length integer representation and its decoding.
use vstd::prelude::*;

verus! {

/// `256^n`.
pub open spec fn pow256(n: nat) -> nat
    decreases n,
{
    if n == 0 {
        1
    } else {
        256 * pow256((n - 1) as nat)
    }
}

/// The unsigned value of a little-endian byte sequence.
pub open spec fn le_value(s: Seq<u8>) -> nat
    decreases s.len(),
{
    if s.len() == 0 {
        0
    } else {
        s[0] as nat + 256 * le_value(s.drop_first())
    }
}

/// The `n` low-order bytes of `v`, least significant first.
pub open spec fn le_bytes(v: nat, n: nat) -> Seq<u8>
    decreases n,
{
    if n == 0 {
        Seq::empty()
    } else {
        seq![(v % 256) as u8] + le_bytes(v / 256, (n - 1) as nat)
    }
}

/// The two's-complement value of a non-empty little-endian byte sequence.
pub open spec fn sign_extended(s: Seq<u8>) -> int {
    if s.len() > 0 && s.last() >= 128 {
        le_value(s) - pow256(s.len())
    } else {
        le_value(s) as int
    }
}

/// Fewest bytes that hold `v` unsigned (at least one).
pub open spec fn ulen(v: nat) -> nat
    decreases v,
{
    if v < 256 {
        1
    } else {
        1 + ulen(v / 256)
    }
}

/// Fewest bytes whose top bit stays clear when they hold `u`.
pub open spec fn mag_len(u: nat) -> nat
    decreases u,
{
    if u < 128 {
        1
    } else {
        1 + mag_len(u / 256)
    }
}

/// Fewest bytes that hold `v` in two's complement (at least one).
pub open spec fn slen(v: int) -> nat {
    if v >= 0 {
        mag_len(v as nat)
    } else {
        mag_len((-v - 1) as nat)
    }
}

/// True when `v` fits in `k` bytes of two's complement.
pub open spec fn fits_signed(v: int, k: nat) -> bool {
    k >= 1 && -128 * pow256((k - 1) as nat) <= v && v < 128 * pow256((k - 1) as nat)
}

/// The two's-complement pattern of `v` on `n` bytes, as an unsigned number.
pub open spec fn twos(v: int, n: nat) -> nat {
    if v >= 0 {
        v as nat
    } else {
        (v + pow256(n)) as nat
    }
}

/// Encoding of the unsigned `v` for a type of `w` bytes: a lone byte when it
/// is 0 or above `w`, else a length byte followed by the minimal bytes.
pub open spec fn enc_uint(v: nat, w: nat) -> Seq<u8> {
    let l = ulen(v);
    if l == 1 && (v == 0 || v > w) {
        le_bytes(v, 1)
    } else {
        seq![l as u8] + le_bytes(v, l)
    }
}

/// Encoding of the signed `v` for a type of `w` bytes (`w` below 128).
pub open spec fn enc_int(v: int, w: nat) -> Seq<u8> {
    let l = slen(v);
    if l == 1 && !(1 <= v <= w) {
        le_bytes(twos(v, 1), 1)
    } else {
        seq![l as u8] + le_bytes(twos(v, l), l)
    }
}

/// True when the leading byte of `s` announces a length for a type of `w` bytes.
pub open spec fn is_len_byte(b: u8, w: nat) -> bool {
    1 <= b && b <= w
}

/// Decoding of an unsigned integer for a type of `w` bytes: the value and the
/// number of bytes consumed, or `None` when `s` is too short or announces
/// more than sixteen bytes.
pub open spec fn dec_uint(s: Seq<u8>, w: nat) -> Option<(nat, nat)> {
    if s.len() == 0 {
        None
    } else if !is_len_byte(s[0], w) {
        Some((s[0] as nat, 1))
    } else if s[0] > 16 || s.len() < 1 + s[0] {
        None
    } else {
        Some((le_value(s.subrange(1, 1 + s[0])), (1 + s[0]) as nat))
    }
}

/// `after` is what is left of `before` once an unsigned integer of a type
/// `w` bytes wide, of value `v`, was read from it.
pub open spec fn took_uint(before: Seq<u8>, after: Seq<u8>, w: nat, v: nat) -> bool {
    match dec_uint(before, w) {
        Some((val, k)) => v == val && after == before.skip(k as int),
        None => false,
    }
}

/// `after` is what is left of `before` once a signed integer of a type `w`
/// bytes wide, of value `v`, was read from it.
pub open spec fn took_int(before: Seq<u8>, after: Seq<u8>, w: nat, v: int) -> bool {
    match dec_int(before, w) {
        Some((val, k)) => v == val && after == before.skip(k as int),
        None => false,
    }
}

/// True when `s` starts with a length byte above sixteen, followed by all
/// the bytes it announces (too many for any integer type) for a type of `w` bytes.
pub open spec fn too_wide(s: Seq<u8>, w: nat) -> bool {
    s.len() > 0 && is_len_byte(s[0], w) && s[0] > 16 && s.len() >= 1 + s[0]
}

/// The signed value of a lone byte.
pub open spec fn byte_as_i8(b: u8) -> int {
    if b >= 128 {
        b - 256
    } else {
        b as int
    }
}

/// Decoding of a signed integer for a type of `w` bytes (`w` at most 16).
pub open spec fn dec_int(s: Seq<u8>, w: nat) -> Option<(int, nat)> {
    if s.len() == 0 {
        None
    } else if !is_len_byte(s[0], w) {
        Some((byte_as_i8(s[0]), 1))
    } else if s.len() < 1 + s[0] {
        None
    } else {
        Some((sign_extended(s.subrange(1, 1 + s[0])), (1 + s[0]) as nat))
    }
}

/// Encoding of a present optional value whose own encoding is `e`: a `1`
/// marker goes first when `e` is empty or would begin with `0` or `1`, so
/// that its leading byte never reads as absent.
pub open spec fn enc_some(e: Seq<u8>) -> Seq<u8> {
    if e.len() == 0 || e[0] <= 1 {
        seq![1u8] + e
    } else {
        e
    }
}

/// Decoding of an optional value's leading byte: whether a value follows, and
/// how many bytes the tag took (none when the value's own first byte serves).
pub open spec fn dec_option(s: Seq<u8>) -> Option<(bool, nat)> {
    if s.len() == 0 {
        None
    } else if s[0] == 0 {
        Some((false, 1))
    } else if s[0] == 1 {
        Some((true, 1))
    } else {
        Some((true, 0))
    }
}

/// Decoding of a length-prefixed byte run: the bytes and the number of
/// bytes consumed.
pub open spec fn dec_bytes(s: Seq<u8>) -> Option<(Seq<u8>, nat)> {
    match dec_uint(s, 255) {
        Some((n, k)) => if k + n <= s.len() {
            Some((s.subrange(k as int, (k + n) as int), k + n))
        } else {
            None
        },
        None => None,
    }
}

/// Encoding of a byte run: its length, then the bytes.
pub open spec fn enc_bytes(b: Seq<u8>) -> Seq<u8> {
    enc_uint(b.len(), 255) + b
}

/// `2^n`.
pub open spec fn pow_two(n: nat) -> nat
    decreases n,
{
    if n == 0 {
        1
    } else {
        2 * pow_two((n - 1) as nat)
    }
}

/// The `n` low bits of `x` in reverse order: bit `i` moves to bit `n - 1 - i`.
pub open spec fn rev_bits(x: nat, n: nat) -> nat
    decreases n,
{
    if n == 0 {
        0
    } else {
        (x % 2) * pow_two((n - 1) as nat) + rev_bits(x / 2, (n - 1) as nat)
    }
}

pub open spec fn abs(v: int) -> nat {
    if v < 0 {
        (-v) as nat
    } else {
        v as nat
    }
}

/// The 23-bit fraction field of a 32-bit float's bit pattern.
pub open spec fn f32_mantissa(bits: u32) -> nat {
    bits as nat % 0x80_0000
}

/// The 8-bit biased exponent field of a 32-bit float's bit pattern.
pub open spec fn f32_exponent(bits: u32) -> nat {
    (bits as nat / 0x80_0000) % 256
}

/// The sign bit of a 32-bit float's bit pattern.
pub open spec fn f32_negative(bits: u32) -> bool {
    bits as nat / 0x80_0000 >= 256
}

/// The reversed fraction field, negated for a negative float. A negative
/// float whose fraction is zero takes `-2^23` instead: its low 23 bits are
/// zero like the fraction, and its sign keeps the float's sign.
pub open spec fn f32_significand(bits: u32) -> int {
    let r = rev_bits(f32_mantissa(bits), 23);
    if f32_negative(bits) {
        if r == 0 {
            -0x80_0000
        } else {
            -r
        }
    } else {
        r as int
    }
}

/// The unbiased exponent `e - 127`, as the byte of an 8-bit signed integer.
/// Its range `-127..=128` is one wider than that type: the field 255 of the
/// infinities and NaNs wraps to byte `0x80` (-128), and decoding adds 127
/// modulo 256, which gives 255 back.
pub open spec fn f32_exponent_byte(bits: u32) -> u8 {
    ((f32_exponent(bits) + 129) % 256) as u8
}

/// Encoding of a 32-bit float given by its bit pattern.
pub open spec fn enc_f32(bits: u32, precise: bool) -> Seq<u8> {
    if precise {
        le_bytes(bits as nat, 4)
    } else {
        enc_int(f32_significand(bits), 4) + seq![f32_exponent_byte(bits)]
    }
}

/// The bit pattern rebuilt from a significand and an exponent byte.
pub open spec fn f32_from_parts(sig: int, e: u8) -> nat {
    rev_bits(abs(sig) % 0x80_0000, 23) + ((e + 127) % 256) as nat * 0x80_0000 + if sig < 0 {
        0x8000_0000nat
    } else {
        0nat
    }
}

/// Decoding of a 32-bit float: its bit pattern and the bytes consumed.
pub open spec fn dec_f32(s: Seq<u8>, precise: bool) -> Option<(nat, nat)> {
    if precise {
        if s.len() >= 4 {
            Some((le_value(s.take(4)), 4))
        } else {
            None
        }
    } else {
        match dec_int(s, 4) {
            Some((sig, k)) => if k < s.len() {
                Some((f32_from_parts(sig, s[k as int]), k + 1))
            } else {
                None
            },
            None => None,
        }
    }
}

/// The 52-bit fraction field of a 64-bit float's bit pattern.
pub open spec fn f64_mantissa(bits: u64) -> nat {
    bits as nat % 0x10_0000_0000_0000
}

/// The 11-bit biased exponent field of a 64-bit float's bit pattern.
pub open spec fn f64_exponent(bits: u64) -> nat {
    (bits as nat / 0x10_0000_0000_0000) % 2048
}

/// The sign bit of a 64-bit float's bit pattern.
pub open spec fn f64_negative(bits: u64) -> bool {
    bits as nat / 0x10_0000_0000_0000 >= 2048
}

/// The reversed fraction field, negated for a negative float. A negative
/// float whose fraction is zero takes `-2^52` instead: its low 52 bits are
/// zero like the fraction, and its sign keeps the float's sign.
pub open spec fn f64_significand(bits: u64) -> int {
    let r = rev_bits(f64_mantissa(bits), 52);
    if f64_negative(bits) {
        if r == 0 {
            -0x10_0000_0000_0000
        } else {
            -r
        }
    } else {
        r as int
    }
}

/// Encoding of a 64-bit float given by its bit pattern.
pub open spec fn enc_f64(bits: u64, precise: bool) -> Seq<u8> {
    if precise {
        le_bytes(bits as nat, 8)
    } else {
        enc_int(f64_significand(bits), 8) + enc_int(f64_exponent(bits) - 1023, 2)
    }
}

/// The bit pattern rebuilt from a significand and an unbiased exponent.
pub open spec fn f64_from_parts(sig: int, ex: int) -> nat {
    rev_bits(abs(sig) % 0x10_0000_0000_0000, 52) + ((ex + 1023) % 2048) as nat
        * 0x10_0000_0000_0000 + if sig < 0 {
        0x8000_0000_0000_0000nat
    } else {
        0nat
    }
}

/// Decoding of a 64-bit float: its bit pattern and the bytes consumed.
pub open spec fn dec_f64(s: Seq<u8>, precise: bool) -> Option<(nat, nat)> {
    if precise {
        if s.len() >= 8 {
            Some((le_value(s.take(8)), 8))
        } else {
            None
        }
    } else {
        match dec_int(s, 8) {
            Some((sig, k)) => match dec_int(s.skip(k as int), 2) {
                Some((ex, k2)) => Some((f64_from_parts(sig, ex), k + k2)),
                None => None,
            },
            None => None,
        }
    }
}

} // verus!
