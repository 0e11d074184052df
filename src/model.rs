//! A model of the values the format carries and of the shapes that drive
//! decoding, with the encoding of a whole value and what it means to read
//! one back. The laws about nested values are stated over it.
use vstd::prelude::*;
use vstd::utf8::valid_utf8;

use crate::encoding::{
    byte_as_i8, dec_bytes, dec_f32, dec_f64, dec_int, dec_option, dec_uint, enc_bytes, enc_f32,
    enc_f64, enc_int, enc_some, enc_uint,
    fits_signed, le_bytes, pow256, twos,
};

verus! {

/// The static shape a decoder is given: the format holds no type tags.
pub enum Shape {
    Bool,
    U8,
    I8,
    /// An unsigned integer of the given width in bytes.
    UInt(nat),
    /// A signed integer of the given width in bytes.
    Int(nat),
    F32,
    F64,
    Char,
    Bytes,
    Text,
    Unit,
    Maybe(Box<Shape>),
    List(Box<Shape>),
    Dict(Box<Shape>, Box<Shape>),
    /// A tuple or a record: its members' shapes in order.
    Record(Seq<Shape>),
    /// A tagged union: each variant's payload shape, by ordinal.
    Union(Seq<Shape>),
}

/// A value of some shape.
pub enum Datum {
    Bool(bool),
    U8(u8),
    I8(int),
    UInt(nat, nat),
    Int(int, nat),
    /// A 32-bit float, by its bit pattern.
    F32(u32),
    /// A 64-bit float, by its bit pattern.
    F64(u64),
    Char(char),
    Bytes(Seq<u8>),
    /// Text, by its UTF-8 bytes.
    Text(Seq<u8>),
    Unit,
    Absent,
    Present(Box<Datum>),
    List(Seq<Datum>),
    Dict(Seq<(Datum, Datum)>),
    Record(Seq<Datum>),
    Variant(nat, Box<Datum>),
}

/// The encoding of a value.
pub open spec fn enc_datum(d: Datum, precise: bool) -> Seq<u8>
    decreases d,
{
    match d {
        Datum::Bool(b) => seq![if b { 1u8 } else { 0u8 }],
        Datum::U8(b) => seq![b],
        Datum::I8(v) => le_bytes(twos(v, 1), 1),
        Datum::UInt(v, w) => enc_uint(v, w),
        Datum::Int(v, w) => enc_int(v, w),
        Datum::F32(b) => enc_f32(b, precise),
        Datum::F64(b) => enc_f64(b, precise),
        Datum::Char(c) => enc_uint((c as u32) as nat, 4),
        Datum::Bytes(b) => enc_bytes(b),
        Datum::Text(b) => enc_bytes(b),
        Datum::Unit => Seq::empty(),
        Datum::Absent => seq![0u8],
        Datum::Present(x) => enc_some(enc_datum(*x, precise)),
        Datum::List(items) => enc_uint(items.len(), 255) + enc_all(items, precise),
        Datum::Dict(entries) => enc_uint(entries.len(), 255) + enc_entries(entries, precise),
        Datum::Record(fields) => enc_all(fields, precise),
        Datum::Variant(i, p) => enc_uint(i, 4) + enc_datum(*p, precise),
    }
}

/// The encodings of `items`, back to back.
pub open spec fn enc_all(items: Seq<Datum>, precise: bool) -> Seq<u8>
    decreases items,
{
    if items.len() == 0 {
        Seq::empty()
    } else {
        enc_datum(items[0], precise) + enc_all(items.subrange(1, items.len() as int), precise)
    }
}

/// The encodings of each key and then its value, entry after entry.
pub open spec fn enc_entries(entries: Seq<(Datum, Datum)>, precise: bool) -> Seq<u8>
    decreases entries,
{
    if entries.len() == 0 {
        Seq::empty()
    } else {
        enc_datum(entries[0].0, precise) + enc_datum(entries[0].1, precise) + enc_entries(
            entries.subrange(1, entries.len() as int),
            precise,
        )
    }
}

/// Reading `s` with `shape` yields `d`: the number of bytes consumed, or
/// `None` when the decoder would fail or yield something else.
pub open spec fn reads(shape: Shape, d: Datum, s: Seq<u8>, precise: bool) -> Option<nat>
    decreases d,
{
    match d {
        Datum::Bool(b) => if shape == Shape::Bool && s.len() > 0 && s[0] == if b {
            1u8
        } else {
            0u8
        } {
            Some(1)
        } else {
            None
        },
        Datum::U8(b) => if shape == Shape::U8 && s.len() > 0 && s[0] == b {
            Some(1)
        } else {
            None
        },
        Datum::I8(v) => if shape == Shape::I8 && s.len() > 0 && byte_as_i8(s[0]) == v {
            Some(1)
        } else {
            None
        },
        Datum::UInt(v, w) => match dec_uint(s, w) {
            Some((val, k)) => if shape == Shape::UInt(w) && val == v {
                Some(k)
            } else {
                None
            },
            None => None,
        },
        Datum::Int(v, w) => match dec_int(s, w) {
            Some((val, k)) => if shape == Shape::Int(w) && val == v {
                Some(k)
            } else {
                None
            },
            None => None,
        },
        Datum::F32(b) => match dec_f32(s, precise) {
            Some((val, k)) => if shape == Shape::F32 && val == b {
                Some(k)
            } else {
                None
            },
            None => None,
        },
        Datum::F64(b) => match dec_f64(s, precise) {
            Some((val, k)) => if shape == Shape::F64 && val == b {
                Some(k)
            } else {
                None
            },
            None => None,
        },
        Datum::Char(c) => match dec_uint(s, 4) {
            Some((val, k)) => if shape == Shape::Char && val == (c as u32) as nat {
                Some(k)
            } else {
                None
            },
            None => None,
        },
        Datum::Bytes(b) => match dec_bytes(s) {
            Some((val, k)) => if shape == Shape::Bytes && val == b {
                Some(k)
            } else {
                None
            },
            None => None,
        },
        Datum::Text(b) => match dec_bytes(s) {
            Some((val, k)) => if shape == Shape::Text && val == b && valid_utf8(b) {
                Some(k)
            } else {
                None
            },
            None => None,
        },
        Datum::Unit => if shape == Shape::Unit {
            Some(0)
        } else {
            None
        },
        Datum::Absent => if shape is Maybe && dec_option(s) == Some((false, 1nat)) {
            Some(1)
        } else {
            None
        },
        Datum::Present(x) => match (shape, dec_option(s)) {
            (Shape::Maybe(inner), Some((true, k))) => match reads(*inner, *x, s.skip(k as int), precise) {
                Some(k2) => Some(k + k2),
                None => None,
            },
            _ => None,
        },
        Datum::List(items) => match (shape, dec_uint(s, 255)) {
            (Shape::List(elem), Some((n, k))) => if n == items.len() {
                match reads_all(*elem, items, s.skip(k as int), precise) {
                    Some(k2) => Some(k + k2),
                    None => None,
                }
            } else {
                None
            },
            _ => None,
        },
        Datum::Dict(entries) => match (shape, dec_uint(s, 255)) {
            (Shape::Dict(ks, vs), Some((n, k))) => if n == entries.len() {
                match reads_entries(*ks, *vs, entries, s.skip(k as int), precise) {
                    Some(k2) => Some(k + k2),
                    None => None,
                }
            } else {
                None
            },
            _ => None,
        },
        Datum::Record(fields) => match shape {
            Shape::Record(shapes) => reads_fields(shapes, fields, s, precise),
            _ => None,
        },
        Datum::Variant(i, p) => match (shape, dec_uint(s, 4)) {
            (Shape::Union(shapes), Some((n, k))) => if n == i && i < shapes.len() {
                match reads(shapes[i as int], *p, s.skip(k as int), precise) {
                    Some(k2) => Some(k + k2),
                    None => None,
                }
            } else {
                None
            },
            _ => None,
        },
    }
}

/// Reading `s` as members all of shape `elem` yields `items`.
pub open spec fn reads_all(elem: Shape, items: Seq<Datum>, s: Seq<u8>, precise: bool) -> Option<
    nat,
>
    decreases items,
{
    if items.len() == 0 {
        Some(0)
    } else {
        match reads(elem, items[0], s, precise) {
            Some(k) => match reads_all(
                elem,
                items.subrange(1, items.len() as int),
                s.skip(k as int),
                precise,
            ) {
                Some(k2) => Some(k + k2),
                None => None,
            },
            None => None,
        }
    }
}

/// Reading `s` as members of the shapes `shapes`, in order, yields `fields`.
pub open spec fn reads_fields(shapes: Seq<Shape>, fields: Seq<Datum>, s: Seq<u8>, precise: bool) -> Option<
    nat,
>
    decreases fields,
{
    if shapes.len() != fields.len() {
        None
    } else if fields.len() == 0 {
        Some(0)
    } else {
        match reads(shapes[0], fields[0], s, precise) {
            Some(k) => match reads_fields(
                shapes.subrange(1, shapes.len() as int),
                fields.subrange(1, fields.len() as int),
                s.skip(k as int),
                precise,
            ) {
                Some(k2) => Some(k + k2),
                None => None,
            },
            None => None,
        }
    }
}

/// Reading `s` as keys of shape `ks` each followed by a value of shape `vs`
/// yields `entries`.
pub open spec fn reads_entries(
    ks: Shape,
    vs: Shape,
    entries: Seq<(Datum, Datum)>,
    s: Seq<u8>,
    precise: bool,
) -> Option<nat>
    decreases entries,
{
    if entries.len() == 0 {
        Some(0)
    } else {
        match reads(ks, entries[0].0, s, precise) {
            Some(k) => match reads(vs, entries[0].1, s.skip(k as int), precise) {
                Some(k2) => match reads_entries(
                    ks,
                    vs,
                    entries.subrange(1, entries.len() as int),
                    s.skip((k + k2) as int),
                    precise,
                ) {
                    Some(k3) => Some(k + k2 + k3),
                    None => None,
                },
                None => None,
            },
            None => None,
        }
    }
}

/// The widths of the integer types wider than one byte.
pub open spec fn is_int_width(w: nat) -> bool {
    w == 2 || w == 4 || w == 8 || w == 16
}

/// `d` is a value of `shape` that the codec carries exactly: integers within
/// their width, collections within `usize` and text that is UTF-8.
pub open spec fn conforms(shape: Shape, d: Datum, precise: bool) -> bool
    decreases d,
{
    match d {
        Datum::Bool(_) => shape == Shape::Bool,
        Datum::U8(_) => shape == Shape::U8,
        Datum::I8(v) => shape == Shape::I8 && -128 <= v < 128,
        Datum::UInt(v, w) => shape == Shape::UInt(w) && is_int_width(w) && v < pow256(w),
        Datum::Int(v, w) => shape == Shape::Int(w) && is_int_width(w) && fits_signed(v, w),
        Datum::F32(_) => shape == Shape::F32,
        Datum::F64(_) => shape == Shape::F64,
        Datum::Char(_) => shape == Shape::Char,
        Datum::Bytes(b) => shape == Shape::Bytes && b.len() <= usize::MAX,
        Datum::Text(b) => shape == Shape::Text && b.len() <= usize::MAX && valid_utf8(b),
        Datum::Unit => shape == Shape::Unit,
        Datum::Absent => shape is Maybe,
        Datum::Present(x) => match shape {
            Shape::Maybe(inner) => conforms(*inner, *x, precise),
            _ => false,
        },
        Datum::List(items) => match shape {
            Shape::List(elem) => items.len() <= usize::MAX && conforms_all(*elem, items, precise),
            _ => false,
        },
        Datum::Dict(entries) => match shape {
            Shape::Dict(ks, vs) => entries.len() <= usize::MAX && conforms_entries(
                *ks,
                *vs,
                entries,
                precise,
            ),
            _ => false,
        },
        Datum::Record(fields) => match shape {
            Shape::Record(shapes) => conforms_fields(shapes, fields, precise),
            _ => false,
        },
        Datum::Variant(i, p) => match shape {
            Shape::Union(shapes) => i < shapes.len() && i <= u32::MAX && conforms(
                shapes[i as int],
                *p,
                precise,
            ),
            _ => false,
        },
    }
}

pub open spec fn conforms_all(elem: Shape, items: Seq<Datum>, precise: bool) -> bool
    decreases items,
{
    items.len() == 0 || (conforms(elem, items[0], precise) && conforms_all(
        elem,
        items.subrange(1, items.len() as int),
        precise,
    ))
}

pub open spec fn conforms_fields(shapes: Seq<Shape>, fields: Seq<Datum>, precise: bool) -> bool
    decreases fields,
{
    shapes.len() == fields.len() && (fields.len() == 0 || (conforms(shapes[0], fields[0], precise)
        && conforms_fields(
        shapes.subrange(1, shapes.len() as int),
        fields.subrange(1, fields.len() as int),
        precise,
    )))
}

pub open spec fn conforms_entries(
    ks: Shape,
    vs: Shape,
    entries: Seq<(Datum, Datum)>,
    precise: bool,
) -> bool
    decreases entries,
{
    entries.len() == 0 || (conforms(ks, entries[0].0, precise) && conforms(
        vs,
        entries[0].1,
        precise,
    ) && conforms_entries(ks, vs, entries.subrange(1, entries.len() as int), precise))
}

} // verus!
