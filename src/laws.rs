//! Laws of the format: what holds of every value and of encoding followed
//! by decoding.
use vstd::prelude::*;

use vstd::arithmetic::div_mod::lemma_fundamental_div_mod;

use crate::encoding::{
    abs, dec_bytes, dec_f32, dec_option, enc_bytes, enc_some, too_wide, dec_f64, dec_int, dec_uint, enc_f32, enc_f64, enc_int, enc_uint, f32_exponent,
    f32_exponent_byte, f32_from_parts, f32_mantissa, f32_negative, f32_significand, f64_exponent,
    f64_from_parts, f64_mantissa, f64_negative, f64_significand, fits_signed, le_bytes, pow256,
    rev_bits, slen, twos, ulen,
};
use crate::model::{
    conforms, conforms_all, conforms_entries, conforms_fields, enc_all, enc_datum, enc_entries,
    reads, reads_all, reads_entries, reads_fields, Datum, Shape,
};
use crate::prefix::{lemma_reads_ext, lemma_reads_unique};
use crate::ser::header_bytes;
use crate::proofs::{
    lemma_le_bytes_len, lemma_le_bytes_value, lemma_pow256_mono, lemma_pow256_widths,
    lemma_pow_two_values, lemma_rev_bound, lemma_rev_involution, lemma_rev_zero, lemma_slen,
    lemma_slen_le, lemma_twos_value, lemma_ulen, lemma_ulen_le,
};

verus! {

/// Decoding an encoded unsigned integer gives the value back and consumes
/// exactly its encoding, whatever follows it.
pub proof fn law_uint_round_trip(v: nat, w: nat, rest: Seq<u8>)
    requires
        (1 <= w <= 16 && v < pow256(w)) || (w == 255 && v < pow256(16)),
    ensures
        dec_uint(enc_uint(v, w) + rest, w) == Some((v, enc_uint(v, w).len())),
{
    lemma_pow256_widths();
    lemma_ulen(v);
    let l = ulen(v);
    if w <= 16 {
        lemma_ulen_le(v, w);
    } else {
        lemma_ulen_le(v, 16);
    }
    let s = enc_uint(v, w) + rest;
    lemma_le_bytes_len(v, l);
    if l == 1 && (v == 0 || v > w) {
        assert(s[0] == v);
    } else {
        lemma_le_bytes_value(v, l);
        assert(s.subrange(1, 1 + l as int) =~= le_bytes(v, l));
    }
}

/// Decoding an encoded signed integer gives the value back and consumes
/// exactly its encoding, whatever follows it.
pub proof fn law_int_round_trip(v: int, w: nat, rest: Seq<u8>)
    requires
        1 <= w <= 16,
        fits_signed(v, w),
    ensures
        dec_int(enc_int(v, w) + rest, w) == Some((v, enc_int(v, w).len())),
{
    lemma_pow256_widths();
    lemma_slen(v);
    lemma_slen_le(v, w);
    let l = slen(v);
    let s = enc_int(v, w) + rest;
    lemma_twos_value(v, l);
    if l == 1 && !(1 <= v <= w) {
        assert(s[0] == twos(v, 1));
    } else {
        assert(s.subrange(1, 1 + l as int) =~= le_bytes(twos(v, l), l));
    }
}

/// An unsigned integer takes one byte when it is 0 or above the width, and
/// otherwise a length byte followed by the fewest bytes that hold it.
pub proof fn law_uint_minimal(v: nat, w: nat)
    requires
        1 <= w <= 255,
        v < pow256(16),
    ensures
        enc_uint(v, w).len() == if v == 0 || (w < v && v < 256) {
            1
        } else {
            1 + ulen(v)
        },
        v < pow256(ulen(v)),
        forall|k: nat| 1 <= k < ulen(v) ==> v >= pow256(k),
{
    lemma_pow256_widths();
    lemma_ulen(v);
    lemma_le_bytes_len(v, ulen(v));
    lemma_le_bytes_len(v, 1);
    assert forall|k: nat| 1 <= k < ulen(v) implies v >= pow256(k) by {
        lemma_pow256_mono(k, (ulen(v) - 1) as nat);
    }
}

/// A signed integer takes one byte when it fits one byte and is not in
/// `1..=w`, and otherwise a length byte followed by the fewest bytes that
/// hold it in two's complement.
pub proof fn law_int_minimal(v: int, w: nat)
    requires
        1 <= w <= 16,
        fits_signed(v, 16),
    ensures
        enc_int(v, w).len() == if -128 <= v < 128 && !(1 <= v <= w) {
            1
        } else {
            1 + slen(v)
        },
        fits_signed(v, slen(v)),
        forall|k: nat| 1 <= k < slen(v) ==> !fits_signed(v, k),
{
    lemma_pow256_widths();
    lemma_slen(v);
    lemma_slen_le(v, 16);
    lemma_twos_value(v, slen(v));
    lemma_le_bytes_len(twos(v, 1), 1);
    if -128 <= v < 128 {
        lemma_slen_le(v, 1);
    }
    assert forall|k: nat| 1 <= k < slen(v) implies !fits_signed(v, k) by {
        lemma_pow256_mono((k - 1) as nat, (slen(v) - 2) as nat);
    }
}

/// Decoding an encoded 32-bit float gives its bit pattern back and consumes
/// exactly its encoding, in either mode, for every bit pattern: signed
/// zeros, infinities, subnormals and NaN payloads included.
pub proof fn law_f32_round_trip(bits: u32, precise: bool, rest: Seq<u8>)
    ensures
        dec_f32(enc_f32(bits, precise) + rest, precise) == Some(
            (bits as nat, enc_f32(bits, precise).len()),
        ),
{
    lemma_pow256_widths();
    lemma_pow_two_values();
    let s = enc_f32(bits, precise) + rest;
    if precise {
        lemma_le_bytes_len(bits as nat, 4);
        lemma_le_bytes_value(bits as nat, 4);
        assert(s.take(4) =~= le_bytes(bits as nat, 4));
    } else {
        let mant = f32_mantissa(bits);
        let exp = f32_exponent(bits);
        let r = rev_bits(mant, 23);
        let sig = f32_significand(bits);
        let eb = f32_exponent_byte(bits);
        lemma_rev_bound(mant, 23);
        lemma_rev_involution(mant, 23);
        lemma_rev_zero(23);
        law_int_round_trip(sig, 4, seq![eb] + rest);
        assert(s =~= enc_int(sig, 4) + (seq![eb] + rest));
        let k = enc_int(sig, 4).len();
        assert(s[k as int] == eb);
        assert(abs(sig) % 0x80_0000 == r);
        assert((eb + 127) % 256 == exp);
        assert((sig < 0) == f32_negative(bits));
        let hi = bits as nat / 0x80_0000;
        lemma_fundamental_div_mod(bits as int, 0x80_0000);
        lemma_fundamental_div_mod(hi as int, 256);
        assert(f32_from_parts(sig, eb) == bits);
    }
}

/// Decoding an encoded 64-bit float gives its bit pattern back and consumes
/// exactly its encoding, in either mode, for every bit pattern: signed
/// zeros, infinities, subnormals and NaN payloads included.
pub proof fn law_f64_round_trip(bits: u64, precise: bool, rest: Seq<u8>)
    ensures
        dec_f64(enc_f64(bits, precise) + rest, precise) == Some(
            (bits as nat, enc_f64(bits, precise).len()),
        ),
{
    lemma_pow256_widths();
    lemma_pow_two_values();
    let s = enc_f64(bits, precise) + rest;
    if precise {
        lemma_le_bytes_len(bits as nat, 8);
        lemma_le_bytes_value(bits as nat, 8);
        assert(s.take(8) =~= le_bytes(bits as nat, 8));
    } else {
        let mant = f64_mantissa(bits);
        let exp = f64_exponent(bits);
        let r = rev_bits(mant, 52);
        let sig = f64_significand(bits);
        let ex = exp - 1023;
        lemma_rev_bound(mant, 52);
        lemma_rev_involution(mant, 52);
        lemma_rev_zero(52);
        law_int_round_trip(sig, 8, enc_int(ex, 2) + rest);
        law_int_round_trip(ex, 2, rest);
        assert(s =~= enc_int(sig, 8) + (enc_int(ex, 2) + rest));
        let k = enc_int(sig, 8).len();
        assert(s.skip(k as int) =~= enc_int(ex, 2) + rest);
        assert(abs(sig) % 0x10_0000_0000_0000 == r);
        assert((ex + 1023) % 2048 == exp);
        assert((sig < 0) == f64_negative(bits));
        let hi = bits as nat / 0x10_0000_0000_0000;
        lemma_fundamental_div_mod(bits as int, 0x10_0000_0000_0000);
        lemma_fundamental_div_mod(hi as int, 2048);
        assert(f64_from_parts(sig, ex) == bits);
    }
}

/// Decoding an encoded byte run gives the bytes back and consumes exactly
/// its encoding.
pub proof fn law_bytes_round_trip(b: Seq<u8>, rest: Seq<u8>)
    requires
        b.len() <= usize::MAX,
    ensures
        dec_bytes(enc_bytes(b) + rest) == Some((b, enc_bytes(b).len())),
{
    lemma_pow256_widths();
    law_uint_round_trip(b.len(), 255, b + rest);
    let s = enc_bytes(b) + rest;
    let k = enc_uint(b.len(), 255).len();
    assert(s =~= enc_uint(b.len(), 255) + (b + rest));
    assert(s.subrange(k as int, (k + b.len()) as int) =~= b);
}

/// A count written before the members of a sequence or map reads back, and
/// leaves the members next in line.
pub proof fn law_count_round_trip(count: nat, body: Seq<u8>)
    requires
        count <= usize::MAX,
    ensures
        ({
            let s = enc_uint(count, 255) + body;
            let k = enc_uint(count, 255).len();
            dec_uint(s, 255) == Some((count, k)) && s.skip(k as int) == body
        }),
{
    lemma_pow256_widths();
    law_uint_round_trip(count, 255, body);
    let k = enc_uint(count, 255).len();
    assert((enc_uint(count, 255) + body).skip(k as int) =~= body);
}

/// An absent optional value reads back as absent; a present one reads back
/// as present, with exactly its own encoding next in line.
pub proof fn law_option_round_trip(e: Seq<u8>, rest: Seq<u8>)
    ensures
        dec_option(seq![0u8] + rest) == Some((false, 1nat)),
        ({
            let s = enc_some(e) + rest;
            match dec_option(s) {
                Some((present, k)) => present && s.skip(k as int) == e + rest,
                None => false,
            }
        }),
{
    let s = enc_some(e) + rest;
    if e.len() == 0 || e[0] <= 1 {
        assert(s.skip(1) =~= e + rest);
    } else {
        assert(s.skip(0) =~= e + rest);
    }
}

/// The header holds version 0, the high-precision flag in bit 0 of the
/// second byte, and the payload follows it.
pub proof fn law_header_round_trip(high_precision: bool, payload: Seq<u8>)
    ensures
        ({
            let s = header_bytes(high_precision) + payload;
            &&& s.len() >= 2
            &&& s[0] == 0
            &&& (s[1] % 2 == 1) == high_precision
            &&& s.skip(2) == payload
        }),
{
    assert((header_bytes(high_precision) + payload).skip(2) =~= payload);
}

/// Every strict prefix of an unsigned integer's encoding is too short to
/// decode, and reports no oversized length.
pub proof fn law_uint_truncated(v: nat, w: nat, n: nat)
    requires
        (1 <= w <= 16 && v < pow256(w)) || (w == 255 && v < pow256(16)),
        n < enc_uint(v, w).len(),
    ensures
        dec_uint(enc_uint(v, w).take(n as int), w) is None,
        !too_wide(enc_uint(v, w).take(n as int), w),
{
    lemma_pow256_widths();
    lemma_ulen(v);
    if w <= 16 {
        lemma_ulen_le(v, w);
    } else {
        lemma_ulen_le(v, 16);
    }
    lemma_le_bytes_len(v, ulen(v));
    lemma_le_bytes_len(v, 1);
}

/// Every strict prefix of a signed integer's encoding is too short to decode.
pub proof fn law_int_truncated(v: int, w: nat, n: nat)
    requires
        1 <= w <= 16,
        fits_signed(v, w),
        n < enc_int(v, w).len(),
    ensures
        dec_int(enc_int(v, w).take(n as int), w) is None,
{
    lemma_pow256_widths();
    lemma_slen(v);
    lemma_slen_le(v, w);
    lemma_twos_value(v, slen(v));
    lemma_le_bytes_len(twos(v, 1), 1);
}

/// Every strict prefix of a byte run's encoding is too short to decode, and
/// reports no oversized length.
pub proof fn law_bytes_truncated(b: Seq<u8>, n: nat)
    requires
        b.len() <= usize::MAX,
        n < enc_bytes(b).len(),
    ensures
        dec_bytes(enc_bytes(b).take(n as int)) is None,
        !too_wide(enc_bytes(b).take(n as int), 255),
{
    lemma_pow256_widths();
    let h = enc_uint(b.len(), 255);
    let t = enc_bytes(b).take(n as int);
    if n < h.len() {
        law_uint_truncated(b.len(), 255, n);
        assert(t =~= h.take(n as int));
    } else {
        law_uint_round_trip(b.len(), 255, t.skip(h.len() as int));
        assert(t =~= h + t.skip(h.len() as int));
    }
}

/// Every strict prefix of a 32-bit float's encoding is too short to decode.
pub proof fn law_f32_truncated(bits: u32, precise: bool, n: nat)
    requires
        n < enc_f32(bits, precise).len(),
    ensures
        dec_f32(enc_f32(bits, precise).take(n as int), precise) is None,
{
    lemma_pow256_widths();
    lemma_pow_two_values();
    if precise {
        lemma_le_bytes_len(bits as nat, 4);
    } else {
        let sig = f32_significand(bits);
        let e = enc_int(sig, 4);
        let t = enc_f32(bits, precise).take(n as int);
        lemma_rev_bound(f32_mantissa(bits), 23);
        if n < e.len() {
            law_int_truncated(sig, 4, n);
            assert(t =~= e.take(n as int));
        } else {
            law_int_round_trip(sig, 4, Seq::empty());
            assert(t =~= e + Seq::<u8>::empty());
        }
    }
}

/// Every strict prefix of a 64-bit float's encoding is too short to decode.
pub proof fn law_f64_truncated(bits: u64, precise: bool, n: nat)
    requires
        n < enc_f64(bits, precise).len(),
    ensures
        dec_f64(enc_f64(bits, precise).take(n as int), precise) is None,
{
    lemma_pow256_widths();
    lemma_pow_two_values();
    if precise {
        lemma_le_bytes_len(bits as nat, 8);
    } else {
        let sig = f64_significand(bits);
        let ex = f64_exponent(bits) - 1023;
        let e1 = enc_int(sig, 8);
        let e2 = enc_int(ex, 2);
        let t = enc_f64(bits, precise).take(n as int);
        lemma_rev_bound(f64_mantissa(bits), 52);
        if n < e1.len() {
            law_int_truncated(sig, 8, n);
            assert(t =~= e1.take(n as int));
        } else {
            let tail = e2.take(n - e1.len());
            law_int_round_trip(sig, 8, tail);
            assert(t =~= e1 + tail);
            assert(t.skip(e1.len() as int) =~= tail);
            law_int_truncated(ex, 2, (n - e1.len()) as nat);
        }
    }
}

/// Decoding the encoding of any value, with its shape, gives the value back
/// and consumes exactly its encoding, however deeply records, unions,
/// lists, maps and optional values nest, in either float mode.
#[verifier::spinoff_prover]
#[verifier::rlimit(100)]
pub proof fn law_round_trip(shape: Shape, d: Datum, precise: bool, rest: Seq<u8>)
    requires
        conforms(shape, d, precise),
    ensures
        reads(shape, d, enc_datum(d, precise) + rest, precise) == Some(
            enc_datum(d, precise).len(),
        ),
    decreases d, 1nat,
{
    lemma_pow256_widths();
    let e = enc_datum(d, precise);
    let s = e + rest;
    match d {
        Datum::Bool(_) => {},
        Datum::U8(_) => {},
        Datum::I8(v) => {
            reveal_with_fuel(le_bytes, 2);
        },
        Datum::UInt(v, w) => {
            law_uint_round_trip(v, w, rest);
        },
        Datum::Int(v, w) => {
            law_int_round_trip(v, w, rest);
        },
        Datum::F32(b) => {
            law_f32_round_trip(b, precise, rest);
        },
        Datum::F64(b) => {
            law_f64_round_trip(b, precise, rest);
        },
        Datum::Char(c) => {
            law_uint_round_trip((c as u32) as nat, 4, rest);
        },
        Datum::Bytes(b) => {
            law_bytes_round_trip(b, rest);
        },
        Datum::Text(b) => {
            law_bytes_round_trip(b, rest);
        },
        Datum::Unit => {},
        Datum::Absent => {},
        Datum::Present(_) => {
            lemma_present_round_trip(shape, d, precise, rest);
        },
        Datum::List(_) => {
            lemma_list_round_trip(shape, d, precise, rest);
        },
        Datum::Dict(_) => {
            lemma_dict_round_trip(shape, d, precise, rest);
        },
        Datum::Record(fields) => {
            lemma_reads_fields(shape->Record_0, fields, precise, rest);
        },
        Datum::Variant(_, _) => {
            lemma_variant_round_trip(shape, d, precise, rest);
        },
    }
}

/// A stream of the header and then a value's encoding, in the mode the
/// header names, gives back that mode and then the value.
pub proof fn law_stream_round_trip(shape: Shape, d: Datum, high_precision: bool)
    requires
        conforms(shape, d, high_precision),
    ensures
        ({
            let s = header_bytes(high_precision) + enc_datum(d, high_precision);
            &&& s.len() >= 2
            &&& s[0] == 0
            &&& (s[1] % 2 == 1) == high_precision
            &&& reads(shape, d, s.skip(2), high_precision) == Some(
                enc_datum(d, high_precision).len(),
            )
        }),
{
    let e = enc_datum(d, high_precision);
    law_header_round_trip(high_precision, e);
    law_round_trip(shape, d, high_precision, Seq::empty());
    assert(e + Seq::<u8>::empty() =~= e);
}

/// No strict prefix of a value's encoding decodes, with its shape, to any
/// value at all: a cut-short composite always fails, however it nests.
pub proof fn law_truncated(shape: Shape, d: Datum, precise: bool, n: nat, other: Datum)
    requires
        conforms(shape, d, precise),
        n < enc_datum(d, precise).len(),
    ensures
        reads(shape, other, enc_datum(d, precise).take(n as int), precise) is None,
{
    let e = enc_datum(d, precise);
    let p = e.take(n as int);
    if reads(shape, other, p, precise) is Some {
        let q = e.skip(n as int);
        assert(p + q =~= e);
        lemma_reads_ext(shape, other, p, q, precise);
        law_round_trip(shape, d, precise, Seq::empty());
        assert(e + Seq::<u8>::empty() =~= e);
        lemma_reads_unique(shape, d, other, e, precise);
    }
}

proof fn lemma_present_round_trip(shape: Shape, d: Datum, precise: bool, rest: Seq<u8>)
    requires
        d is Present,
        conforms(shape, d, precise),
    ensures
        reads(shape, d, enc_datum(d, precise) + rest, precise) == Some(
            enc_datum(d, precise).len(),
        ),
    decreases d, 0nat,
{
    let x = *d->Present_0;
    let inner = enc_datum(x, precise);
    let s = enc_datum(d, precise) + rest;
    assert(enc_datum(d, precise) == enc_some(inner));
    law_option_round_trip(inner, rest);
    law_round_trip(*shape->Maybe_0, x, precise, rest);
}

proof fn lemma_list_round_trip(shape: Shape, d: Datum, precise: bool, rest: Seq<u8>)
    requires
        d is List,
        conforms(shape, d, precise),
    ensures
        reads(shape, d, enc_datum(d, precise) + rest, precise) == Some(
            enc_datum(d, precise).len(),
        ),
    decreases d, 0nat,
{
    lemma_pow256_widths();
    let items = d->List_0;
    let body = enc_all(items, precise);
    let s = enc_datum(d, precise) + rest;
    law_count_round_trip(items.len(), body + rest);
    assert(s =~= enc_uint(items.len(), 255) + (body + rest));
    lemma_reads_all(*shape->List_0, items, precise, rest);
}

proof fn lemma_dict_round_trip(shape: Shape, d: Datum, precise: bool, rest: Seq<u8>)
    requires
        d is Dict,
        conforms(shape, d, precise),
    ensures
        reads(shape, d, enc_datum(d, precise) + rest, precise) == Some(
            enc_datum(d, precise).len(),
        ),
    decreases d, 0nat,
{
    lemma_pow256_widths();
    let entries = d->Dict_0;
    let body = enc_entries(entries, precise);
    let s = enc_datum(d, precise) + rest;
    law_count_round_trip(entries.len(), body + rest);
    assert(s =~= enc_uint(entries.len(), 255) + (body + rest));
    lemma_reads_entries(*shape->Dict_0, *shape->Dict_1, entries, precise, rest);
}

proof fn lemma_variant_round_trip(shape: Shape, d: Datum, precise: bool, rest: Seq<u8>)
    requires
        d is Variant,
        conforms(shape, d, precise),
    ensures
        reads(shape, d, enc_datum(d, precise) + rest, precise) == Some(
            enc_datum(d, precise).len(),
        ),
    decreases d, 0nat,
{
    lemma_pow256_widths();
    let i = d->Variant_0;
    let p = *d->Variant_1;
    let payload = enc_datum(p, precise);
    let s = enc_datum(d, precise) + rest;
    law_uint_round_trip(i, 4, payload + rest);
    assert(s =~= enc_uint(i, 4) + (payload + rest));
    let k = enc_uint(i, 4).len();
    assert(s.skip(k as int) =~= payload + rest);
    law_round_trip(shape->Union_0[i as int], p, precise, rest);
}

proof fn lemma_reads_all(elem: Shape, items: Seq<Datum>, precise: bool, rest: Seq<u8>)
    requires
        conforms_all(elem, items, precise),
    ensures
        reads_all(elem, items, enc_all(items, precise) + rest, precise) == Some(
            enc_all(items, precise).len(),
        ),
    decreases items, 0nat,
{
    if items.len() > 0 {
        let tail = items.subrange(1, items.len() as int);
        let head = enc_datum(items[0], precise);
        let more = enc_all(tail, precise);
        let s = enc_all(items, precise) + rest;
        assert(s =~= head + (more + rest));
        law_round_trip(elem, items[0], precise, more + rest);
        assert(s.skip(head.len() as int) =~= more + rest);
        lemma_reads_all(elem, tail, precise, rest);
    }
}

proof fn lemma_reads_fields(shapes: Seq<Shape>, fields: Seq<Datum>, precise: bool, rest: Seq<u8>)
    requires
        conforms_fields(shapes, fields, precise),
    ensures
        reads_fields(shapes, fields, enc_all(fields, precise) + rest, precise) == Some(
            enc_all(fields, precise).len(),
        ),
    decreases fields, 0nat,
{
    if fields.len() > 0 {
        let tail = fields.subrange(1, fields.len() as int);
        let head = enc_datum(fields[0], precise);
        let more = enc_all(tail, precise);
        let s = enc_all(fields, precise) + rest;
        assert(s =~= head + (more + rest));
        law_round_trip(shapes[0], fields[0], precise, more + rest);
        assert(s.skip(head.len() as int) =~= more + rest);
        lemma_reads_fields(shapes.subrange(1, shapes.len() as int), tail, precise, rest);
    }
}

proof fn lemma_reads_entries(
    ks: Shape,
    vs: Shape,
    entries: Seq<(Datum, Datum)>,
    precise: bool,
    rest: Seq<u8>,
)
    requires
        conforms_entries(ks, vs, entries, precise),
    ensures
        reads_entries(ks, vs, entries, enc_entries(entries, precise) + rest, precise) == Some(
            enc_entries(entries, precise).len(),
        ),
    decreases entries, 0nat,
{
    if entries.len() > 0 {
        let tail = entries.subrange(1, entries.len() as int);
        let key = enc_datum(entries[0].0, precise);
        let value = enc_datum(entries[0].1, precise);
        let more = enc_entries(tail, precise);
        let s = enc_entries(entries, precise) + rest;
        assert(s =~= key + (value + (more + rest)));
        law_round_trip(ks, entries[0].0, precise, value + (more + rest));
        assert(s.skip(key.len() as int) =~= value + (more + rest));
        law_round_trip(vs, entries[0].1, precise, more + rest);
        assert(s.skip((key.len() + value.len()) as int) =~= more + rest);
        lemma_reads_entries(ks, vs, tail, precise, rest);
    }
}

} // verus!
