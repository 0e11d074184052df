//! Decoding reads only what it consumes, and reads at most one value: the
//! facts behind the law that a cut-short encoding never decodes.
use vstd::prelude::*;

use crate::encoding::{dec_bytes, dec_f32, dec_f64, dec_int, dec_option, dec_uint};
use crate::model::{reads, reads_all, reads_entries, reads_fields, Datum, Shape};

verus! {

/// `(p + q).skip(k)` is `p.skip(k) + q` while `k` stays within `p`.
pub proof fn lemma_skip_concat(p: Seq<u8>, q: Seq<u8>, k: nat)
    requires
        k <= p.len(),
    ensures
        (p + q).skip(k as int) == p.skip(k as int) + q,
{
    assert((p + q).skip(k as int) =~= p.skip(k as int) + q);
}

pub proof fn lemma_dec_uint_ext(p: Seq<u8>, q: Seq<u8>, w: nat)
    requires
        dec_uint(p, w) is Some,
    ensures
        dec_uint(p + q, w) == dec_uint(p, w),
        (dec_uint(p, w)->0).1 <= p.len(),
{
    if p.len() > 0 && 1 <= p[0] <= w {
        assert((p + q).subrange(1, 1 + p[0]) =~= p.subrange(1, 1 + p[0]));
    }
}

pub proof fn lemma_dec_int_ext(p: Seq<u8>, q: Seq<u8>, w: nat)
    requires
        dec_int(p, w) is Some,
    ensures
        dec_int(p + q, w) == dec_int(p, w),
        (dec_int(p, w)->0).1 <= p.len(),
{
    if p.len() > 0 && 1 <= p[0] <= w {
        assert((p + q).subrange(1, 1 + p[0]) =~= p.subrange(1, 1 + p[0]));
    }
}

pub proof fn lemma_dec_bytes_ext(p: Seq<u8>, q: Seq<u8>)
    requires
        dec_bytes(p) is Some,
    ensures
        dec_bytes(p + q) == dec_bytes(p),
        (dec_bytes(p)->0).1 <= p.len(),
{
    lemma_dec_uint_ext(p, q, 255);
    let (n, k) = dec_uint(p, 255)->0;
    assert((p + q).subrange(k as int, (k + n) as int) =~= p.subrange(k as int, (k + n) as int));
}

pub proof fn lemma_dec_f32_ext(p: Seq<u8>, q: Seq<u8>, precise: bool)
    requires
        dec_f32(p, precise) is Some,
    ensures
        dec_f32(p + q, precise) == dec_f32(p, precise),
        (dec_f32(p, precise)->0).1 <= p.len(),
{
    if precise {
        assert((p + q).take(4) =~= p.take(4));
    } else {
        lemma_dec_int_ext(p, q, 4);
    }
}

pub proof fn lemma_dec_f64_ext(p: Seq<u8>, q: Seq<u8>, precise: bool)
    requires
        dec_f64(p, precise) is Some,
    ensures
        dec_f64(p + q, precise) == dec_f64(p, precise),
        (dec_f64(p, precise)->0).1 <= p.len(),
{
    if precise {
        assert((p + q).take(8) =~= p.take(8));
    } else {
        lemma_dec_int_ext(p, q, 8);
        let k = (dec_int(p, 8)->0).1;
        lemma_skip_concat(p, q, k);
        lemma_dec_int_ext(p.skip(k as int), q, 2);
    }
}

/// A value read from `p` is read the same from `p` followed by anything,
/// and takes no more than `p`.
pub proof fn lemma_reads_ext(shape: Shape, d: Datum, p: Seq<u8>, q: Seq<u8>, precise: bool)
    requires
        reads(shape, d, p, precise) is Some,
    ensures
        reads(shape, d, p + q, precise) == reads(shape, d, p, precise),
        reads(shape, d, p, precise)->0 <= p.len(),
    decreases d, 1nat,
{
    let s = p + q;
    match d {
        Datum::UInt(v, w) => lemma_dec_uint_ext(p, q, w),
        Datum::Int(v, w) => lemma_dec_int_ext(p, q, w),
        Datum::F32(_) => lemma_dec_f32_ext(p, q, precise),
        Datum::F64(_) => lemma_dec_f64_ext(p, q, precise),
        Datum::Char(_) => lemma_dec_uint_ext(p, q, 4),
        Datum::Bytes(_) => lemma_dec_bytes_ext(p, q),
        Datum::Text(_) => lemma_dec_bytes_ext(p, q),
        Datum::Present(x) => {
            let k = (dec_option(p)->0).1;
            lemma_skip_concat(p, q, k);
            lemma_reads_ext(*shape->Maybe_0, *x, p.skip(k as int), q, precise);
        },
        Datum::List(items) => {
            lemma_dec_uint_ext(p, q, 255);
            let k = (dec_uint(p, 255)->0).1;
            lemma_skip_concat(p, q, k);
            lemma_reads_all_ext(*shape->List_0, items, p.skip(k as int), q, precise);
        },
        Datum::Dict(entries) => {
            lemma_dec_uint_ext(p, q, 255);
            let k = (dec_uint(p, 255)->0).1;
            lemma_skip_concat(p, q, k);
            lemma_reads_entries_ext(
                *shape->Dict_0,
                *shape->Dict_1,
                entries,
                p.skip(k as int),
                q,
                precise,
            );
        },
        Datum::Record(fields) => {
            lemma_reads_fields_ext(shape->Record_0, fields, p, q, precise);
        },
        Datum::Variant(i, x) => {
            lemma_dec_uint_ext(p, q, 4);
            let k = (dec_uint(p, 4)->0).1;
            lemma_skip_concat(p, q, k);
            lemma_reads_ext(shape->Union_0[i as int], *x, p.skip(k as int), q, precise);
        },
        _ => {},
    }
}

proof fn lemma_reads_all_ext(elem: Shape, items: Seq<Datum>, p: Seq<u8>, q: Seq<u8>, precise: bool)
    requires
        reads_all(elem, items, p, precise) is Some,
    ensures
        reads_all(elem, items, p + q, precise) == reads_all(elem, items, p, precise),
        reads_all(elem, items, p, precise)->0 <= p.len(),
    decreases items, 0nat,
{
    if items.len() > 0 {
        lemma_reads_ext(elem, items[0], p, q, precise);
        let k = reads(elem, items[0], p, precise)->0;
        lemma_skip_concat(p, q, k);
        lemma_reads_all_ext(elem, items.subrange(1, items.len() as int), p.skip(k as int), q, precise);
    }
}

proof fn lemma_reads_fields_ext(
    shapes: Seq<Shape>,
    fields: Seq<Datum>,
    p: Seq<u8>,
    q: Seq<u8>,
    precise: bool,
)
    requires
        reads_fields(shapes, fields, p, precise) is Some,
    ensures
        reads_fields(shapes, fields, p + q, precise) == reads_fields(shapes, fields, p, precise),
        reads_fields(shapes, fields, p, precise)->0 <= p.len(),
    decreases fields, 0nat,
{
    if fields.len() > 0 {
        lemma_reads_ext(shapes[0], fields[0], p, q, precise);
        let k = reads(shapes[0], fields[0], p, precise)->0;
        lemma_skip_concat(p, q, k);
        lemma_reads_fields_ext(
            shapes.subrange(1, shapes.len() as int),
            fields.subrange(1, fields.len() as int),
            p.skip(k as int),
            q,
            precise,
        );
    }
}

#[verifier::spinoff_prover]
proof fn lemma_reads_entries_ext(
    ks: Shape,
    vs: Shape,
    entries: Seq<(Datum, Datum)>,
    p: Seq<u8>,
    q: Seq<u8>,
    precise: bool,
)
    requires
        reads_entries(ks, vs, entries, p, precise) is Some,
    ensures
        reads_entries(ks, vs, entries, p + q, precise) == reads_entries(ks, vs, entries, p, precise),
        reads_entries(ks, vs, entries, p, precise)->0 <= p.len(),
    decreases entries, 0nat,
{
    if entries.len() > 0 {
        lemma_reads_ext(ks, entries[0].0, p, q, precise);
        let k = reads(ks, entries[0].0, p, precise)->0;
        lemma_skip_concat(p, q, k);
        lemma_reads_ext(vs, entries[0].1, p.skip(k as int), q, precise);
        let k2 = reads(vs, entries[0].1, p.skip(k as int), precise)->0;
        lemma_skip_concat(p, q, k + k2);
        lemma_reads_entries_ext(
            ks,
            vs,
            entries.subrange(1, entries.len() as int),
            p.skip((k + k2) as int),
            q,
            precise,
        );
    }
}

/// A shape and bytes determine the value read, if any.
pub proof fn lemma_reads_unique(shape: Shape, d1: Datum, d2: Datum, s: Seq<u8>, precise: bool)
    requires
        reads(shape, d1, s, precise) is Some,
        reads(shape, d2, s, precise) is Some,
    ensures
        d1 == d2,
    decreases d1, 1nat,
{
    match d1 {
        Datum::Char(c1) => {
            assert(d2 is Char);
            let c2 = d2->Char_0;
            assert((c1 as u32) == (c2 as u32));
        },
        Datum::Absent => {
            assert(d2 is Absent);
        },
        Datum::Present(x1) => {
            assert(d2 is Present);
            let x2 = *d2->Present_0;
            let k = (dec_option(s)->0).1;
            lemma_reads_unique(*shape->Maybe_0, *x1, x2, s.skip(k as int), precise);
        },
        Datum::List(items1) => {
            assert(d2 is List);
            let k = (dec_uint(s, 255)->0).1;
            lemma_reads_all_unique(*shape->List_0, items1, d2->List_0, s.skip(k as int), precise);
        },
        Datum::Dict(entries1) => {
            assert(d2 is Dict);
            let k = (dec_uint(s, 255)->0).1;
            lemma_reads_entries_unique(
                *shape->Dict_0,
                *shape->Dict_1,
                entries1,
                d2->Dict_0,
                s.skip(k as int),
                precise,
            );
        },
        Datum::Record(fields1) => {
            assert(d2 is Record);
            lemma_reads_fields_unique(shape->Record_0, fields1, d2->Record_0, s, precise);
        },
        Datum::Variant(i1, x1) => {
            assert(d2 is Variant);
            let k = (dec_uint(s, 4)->0).1;
            lemma_reads_unique(
                shape->Union_0[i1 as int],
                *x1,
                *d2->Variant_1,
                s.skip(k as int),
                precise,
            );
        },
        _ => {},
    }
}

proof fn lemma_reads_all_unique(
    elem: Shape,
    a: Seq<Datum>,
    b: Seq<Datum>,
    s: Seq<u8>,
    precise: bool,
)
    requires
        a.len() == b.len(),
        reads_all(elem, a, s, precise) is Some,
        reads_all(elem, b, s, precise) is Some,
    ensures
        a == b,
    decreases a, 0nat,
{
    if a.len() > 0 {
        lemma_reads_unique(elem, a[0], b[0], s, precise);
        let k = reads(elem, a[0], s, precise)->0;
        lemma_reads_all_unique(
            elem,
            a.subrange(1, a.len() as int),
            b.subrange(1, b.len() as int),
            s.skip(k as int),
            precise,
        );
        assert forall|i: int| 0 <= i < a.len() implies a[i] == b[i] by {
            if i > 0 {
                assert(a[i] == a.subrange(1, a.len() as int)[i - 1]);
                assert(b[i] == b.subrange(1, b.len() as int)[i - 1]);
            }
        }
        assert(a =~= b);
    } else {
        assert(a =~= b);
    }
}

proof fn lemma_reads_fields_unique(
    shapes: Seq<Shape>,
    a: Seq<Datum>,
    b: Seq<Datum>,
    s: Seq<u8>,
    precise: bool,
)
    requires
        reads_fields(shapes, a, s, precise) is Some,
        reads_fields(shapes, b, s, precise) is Some,
    ensures
        a == b,
    decreases a, 0nat,
{
    if a.len() > 0 {
        lemma_reads_unique(shapes[0], a[0], b[0], s, precise);
        let k = reads(shapes[0], a[0], s, precise)->0;
        lemma_reads_fields_unique(
            shapes.subrange(1, shapes.len() as int),
            a.subrange(1, a.len() as int),
            b.subrange(1, b.len() as int),
            s.skip(k as int),
            precise,
        );
        assert forall|i: int| 0 <= i < a.len() implies a[i] == b[i] by {
            if i > 0 {
                assert(a[i] == a.subrange(1, a.len() as int)[i - 1]);
                assert(b[i] == b.subrange(1, b.len() as int)[i - 1]);
            }
        }
        assert(a =~= b);
    } else {
        assert(a =~= b);
    }
}

#[verifier::spinoff_prover]
proof fn lemma_reads_entries_unique(
    ks: Shape,
    vs: Shape,
    a: Seq<(Datum, Datum)>,
    b: Seq<(Datum, Datum)>,
    s: Seq<u8>,
    precise: bool,
)
    requires
        a.len() == b.len(),
        reads_entries(ks, vs, a, s, precise) is Some,
        reads_entries(ks, vs, b, s, precise) is Some,
    ensures
        a == b,
    decreases a, 0nat,
{
    if a.len() > 0 {
        lemma_reads_unique(ks, a[0].0, b[0].0, s, precise);
        let k = reads(ks, a[0].0, s, precise)->0;
        lemma_reads_unique(vs, a[0].1, b[0].1, s.skip(k as int), precise);
        let k2 = reads(vs, a[0].1, s.skip(k as int), precise)->0;
        lemma_reads_entries_unique(
            ks,
            vs,
            a.subrange(1, a.len() as int),
            b.subrange(1, b.len() as int),
            s.skip((k + k2) as int),
            precise,
        );
        assert forall|i: int| 0 <= i < a.len() implies a[i] == b[i] by {
            if i > 0 {
                assert(a[i] == a.subrange(1, a.len() as int)[i - 1]);
                assert(b[i] == b.subrange(1, b.len() as int)[i - 1]);
            }
        }
        assert(a =~= b);
    } else {
        assert(a =~= b);
    }
}

} // verus!
