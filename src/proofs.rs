//! Lemmas about the byte-level model.
use vstd::prelude::*;

use vstd::arithmetic::div_mod::{
    lemma_div_denominator, lemma_fundamental_div_mod, lemma_fundamental_div_mod_converse,
    lemma_mod_breakdown,
};

use crate::encoding::{
    fits_signed, le_bytes, le_value, mag_len, pow256, pow_two, rev_bits, sign_extended, slen, twos,
    ulen,
};

verus! {

/// The powers of 256 that bound the fixed-width integer types.
pub proof fn lemma_pow256_widths()
    ensures
        pow256(0) == 1,
        pow256(1) == 256,
        pow256(2) == u16::MAX + 1,
        pow256(4) == u32::MAX + 1,
        pow256(8) == u64::MAX + 1,
        pow256(16) == u128::MAX + 1,
        128 * pow256(0) == i8::MAX + 1,
        128 * pow256(1) == i16::MAX + 1,
        128 * pow256(3) == i32::MAX + 1,
        128 * pow256(7) == i64::MAX + 1,
        128 * pow256(15) == i128::MAX + 1,
{
    reveal_with_fuel(pow256, 17);
}

pub proof fn lemma_pow256_pos(n: nat)
    ensures
        pow256(n) >= 1,
    decreases n,
{
    if n > 0 {
        lemma_pow256_pos((n - 1) as nat);
    }
}

pub proof fn lemma_pow256_mono(a: nat, b: nat)
    requires
        a <= b,
    ensures
        pow256(a) <= pow256(b),
    decreases b,
{
    if a < b {
        lemma_pow256_mono(a, (b - 1) as nat);
        lemma_pow256_pos((b - 1) as nat);
    }
}

pub proof fn lemma_le_value_bound(s: Seq<u8>)
    ensures
        le_value(s) < pow256(s.len()),
    decreases s.len(),
{
    if s.len() > 0 {
        lemma_le_value_bound(s.drop_first());
        let r = le_value(s.drop_first());
        let p = pow256((s.len() - 1) as nat);
        assert(r + 1 <= p);
        assert(s[0] as nat + 256 * r < 256 * p) by (nonlinear_arith)
            requires
                r + 1 <= p,
                s[0] < 256,
        ;
    }
}

pub proof fn lemma_le_value_push(s: Seq<u8>, b: u8)
    ensures
        le_value(s.push(b)) == le_value(s) + b * pow256(s.len()),
    decreases s.len(),
{
    if s.len() == 0 {
        assert(s.push(b).drop_first() =~= Seq::<u8>::empty());
        assert(le_value(Seq::<u8>::empty()) == 0);
        assert(le_value(s) == 0);
        assert(pow256(0) == 1);
        assert(le_value(s.push(b)) == b);
    } else {
        let t = s.drop_first();
        assert(s.push(b).drop_first() =~= t.push(b));
        lemma_le_value_push(t, b);
        let p = pow256(t.len());
        let r = le_value(t);
        assert(s.push(b)[0] == s[0]);
        assert(le_value(s.push(b)) == s[0] + 256 * le_value(t.push(b)));
        assert(le_value(t.push(b)) == r + b * p);
        assert(le_value(s) == s[0] + 256 * r);
        assert(s.len() == t.len() + 1);
        assert(pow256(s.len()) == 256 * p);
        assert(256 * (r + b * p) == 256 * r + b * (256 * p)) by (nonlinear_arith);
    }
}

/// The value of a non-empty sequence split at its most significant byte.
pub proof fn lemma_le_value_last(s: Seq<u8>)
    requires
        s.len() > 0,
    ensures
        le_value(s) == le_value(s.drop_last()) + s.last() * pow256((s.len() - 1) as nat),
        le_value(s.drop_last()) < pow256((s.len() - 1) as nat),
{
    assert(s.drop_last().push(s.last()) =~= s);
    lemma_le_value_push(s.drop_last(), s.last());
    lemma_le_value_bound(s.drop_last());
}

/// Peeling the least significant byte off a suffix.
pub proof fn lemma_le_value_suffix(s: Seq<u8>, i: int)
    requires
        0 <= i < s.len(),
    ensures
        le_value(s.subrange(i, s.len() as int)) == s[i] + 256 * le_value(
            s.subrange(i + 1, s.len() as int),
        ),
{
    assert(s.subrange(i, s.len() as int).drop_first() =~= s.subrange(i + 1, s.len() as int));
}

/// One step of sign extension from the most significant end: the value so
/// far stays within the bounds that keep the next step in `i128`.
pub proof fn lemma_sign_extend_step(s: Seq<u8>, i: nat, negative: bool)
    requires
        i < s.len() <= 16,
        negative == (s.last() >= 128),
    ensures
        ({
            let k = (s.len() - i - 1) as nat;
            let acc = le_value(s.subrange(i + 1 as int, s.len() as int)) - (if negative {
                pow256(k) as int
            } else {
                0
            });
            &&& -0x80_0000_0000_0000_0000_0000_0000_0000 <= acc
            &&& acc < 0x80_0000_0000_0000_0000_0000_0000_0000
            &&& acc * 256 + s[i as int] == le_value(s.subrange(i as int, s.len() as int)) - (
            if negative {
                pow256(k + 1) as int
            } else {
                0
            })
        }),
{
    let n = s.len();
    let k = (n - i - 1) as nat;
    let t = s.subrange(i + 1 as int, n as int);
    lemma_le_value_suffix(s, i as int);
    assert(pow256(k + 1) == 256 * pow256(k));
    assert(t.len() == k);
    lemma_le_value_bound(t);
    if k > 0 {
        assert(t.last() == s.last());
        lemma_le_value_last(t);
        let p = pow256((k - 1) as nat);
        lemma_pow256_mono((k - 1) as nat, 14);
        reveal_with_fuel(pow256, 15);
        assert(pow256(14) == 0x1_0000_0000_0000_0000_0000_0000_0000);
        assert(pow256(k) == 256 * p);
        if negative {
            assert(le_value(t) >= 128 * p) by (nonlinear_arith)
                requires
                    le_value(t) == le_value(t.drop_last()) + t.last() * p,
                    t.last() >= 128,
                    p >= 0,
            ;
        } else {
            assert(le_value(t) < 128 * p) by (nonlinear_arith)
                requires
                    le_value(t) == le_value(t.drop_last()) + t.last() * p,
                    t.last() < 128,
                    le_value(t.drop_last()) < p,
            ;
        }
    } else {
        assert(t.len() == 0);
        assert(le_value(t) == 0);
    }
}

pub proof fn lemma_le_bytes_len(v: nat, n: nat)
    ensures
        le_bytes(v, n).len() == n,
    decreases n,
{
    if n > 0 {
        lemma_le_bytes_len(v / 256, (n - 1) as nat);
    }
}

pub proof fn lemma_le_bytes_value(v: nat, n: nat)
    requires
        v < pow256(n),
    ensures
        le_value(le_bytes(v, n)) == v,
    decreases n,
{
    lemma_le_bytes_len(v, n);
    if n > 0 {
        let s = le_bytes(v, n);
        let p = pow256((n - 1) as nat);
        lemma_fundamental_div_mod(v as int, 256);
        assert(v / 256 < p) by (nonlinear_arith)
            requires
                v < 256 * p,
                v == 256 * (v / 256) + v % 256,
                v % 256 >= 0,
        ;
        lemma_le_bytes_value(v / 256, (n - 1) as nat);
        assert(s.drop_first() =~= le_bytes(v / 256, (n - 1) as nat));
    } else {
        assert(v == 0);
    }
}

/// The bytes of `pow256(n) - 1 - m` are those of `m` with every bit flipped:
/// peeling off the least significant one.
pub proof fn lemma_complement_step(m: nat, n: nat)
    requires
        n > 0,
        m < pow256(n),
    ensures
        m / 256 < pow256((n - 1) as nat),
        le_bytes((pow256(n) - 1 - m) as nat, n) == seq![(255 - m % 256) as u8] + le_bytes(
            (pow256((n - 1) as nat) - 1 - m / 256) as nat,
            (n - 1) as nat,
        ),
{
    let p = pow256((n - 1) as nat);
    let q = m / 256;
    let r = m % 256;
    lemma_fundamental_div_mod(m as int, 256);
    assert(q < p) by (nonlinear_arith)
        requires
            m < 256 * p,
            m == 256 * q + r,
            r >= 0,
    ;
    let c = (pow256(n) - 1 - m) as nat;
    assert(c == 256 * (p - 1 - q) + (255 - r));
    lemma_fundamental_div_mod_converse(c as int, 256, (p - 1 - q) as int, (255 - r) as int);
}

/// `ulen(v)` is the least number of bytes that holds `v`.
pub proof fn lemma_ulen(v: nat)
    ensures
        1 <= ulen(v),
        v < pow256(ulen(v)),
        ulen(v) > 1 ==> v >= pow256((ulen(v) - 1) as nat),
    decreases v,
{
    assert(pow256(0) == 1);
    assert(pow256(1) == 256);
    if v >= 256 {
        lemma_ulen(v / 256);
        let l = ulen(v / 256);
        lemma_fundamental_div_mod(v as int, 256);
        assert(pow256(l + 1) == 256 * pow256(l));
        assert(v < 256 * pow256(l)) by (nonlinear_arith)
            requires
                v / 256 < pow256(l),
                v == 256 * (v / 256) + v % 256,
                v % 256 < 256,
        ;
        if l > 1 {
            assert(pow256(l) == 256 * pow256((l - 1) as nat));
            assert(v >= 256 * pow256((l - 1) as nat)) by (nonlinear_arith)
                requires
                    v / 256 >= pow256((l - 1) as nat),
                    v == 256 * (v / 256) + v % 256,
                    v % 256 >= 0,
            ;
        } else {
            assert(pow256(1) == 256);
        }
    }
}

pub proof fn lemma_ulen_le(v: nat, w: nat)
    requires
        1 <= w,
        v < pow256(w),
    ensures
        ulen(v) <= w,
    decreases w,
{
    if v >= 256 {
        assert(w > 1) by {
            if w == 1 {
                assert(pow256(0) == 1);
                assert(pow256(1) == 256);
            }
        }
        lemma_fundamental_div_mod(v as int, 256);
        let p = pow256((w - 1) as nat);
        assert(v / 256 < p) by (nonlinear_arith)
            requires
                v < 256 * p,
                v == 256 * (v / 256) + v % 256,
                v % 256 >= 0,
        ;
        lemma_ulen_le(v / 256, (w - 1) as nat);
    }
}

/// `mag_len(u)` is the least number of bytes whose top bit stays clear when
/// they hold `u`.
pub proof fn lemma_mag_len(u: nat)
    ensures
        1 <= mag_len(u),
        u < 128 * pow256((mag_len(u) - 1) as nat),
        mag_len(u) > 1 ==> u >= 128 * pow256((mag_len(u) - 2) as nat),
    decreases u,
{
    if u >= 128 {
        lemma_mag_len(u / 256);
        let l = mag_len(u / 256);
        lemma_fundamental_div_mod(u as int, 256);
        let p = pow256((l - 1) as nat);
        assert(pow256(l) == 256 * p);
        assert(u < 128 * (256 * p)) by (nonlinear_arith)
            requires
                u / 256 < 128 * p,
                u == 256 * (u / 256) + u % 256,
                u % 256 < 256,
        ;
        if l > 1 {
            let p2 = pow256((l - 2) as nat);
            assert(p == 256 * p2);
            assert(u >= 128 * (256 * p2)) by (nonlinear_arith)
                requires
                    u / 256 >= 128 * p2,
                    u == 256 * (u / 256) + u % 256,
                    u % 256 >= 0,
            ;
        } else {
            assert(pow256(0) == 1);
        }
    } else {
        assert(pow256(0) == 1);
    }
}

pub proof fn lemma_mag_len_le(u: nat, k: nat)
    requires
        1 <= k,
        u < 128 * pow256((k - 1) as nat),
    ensures
        mag_len(u) <= k,
    decreases k,
{
    if u >= 128 {
        assert(k > 1) by {
            if k == 1 {
                assert(pow256(0) == 1);
            }
        }
        lemma_fundamental_div_mod(u as int, 256);
        let p = pow256((k - 2) as nat);
        assert(pow256((k - 1) as nat) == 256 * p);
        assert(u / 256 < 128 * p) by (nonlinear_arith)
            requires
                u < 128 * (256 * p),
                u == 256 * (u / 256) + u % 256,
                u % 256 >= 0,
        ;
        lemma_mag_len_le(u / 256, (k - 1) as nat);
    }
}

/// The two's-complement bytes of `v` on `l` bytes read back as `v`, when `v`
/// fits there.
pub proof fn lemma_twos_value(v: int, l: nat)
    requires
        1 <= l,
        -128 * pow256((l - 1) as nat) <= v < 128 * pow256((l - 1) as nat),
    ensures
        twos(v, l) < pow256(l),
        le_bytes(twos(v, l), l).len() == l,
        sign_extended(le_bytes(twos(v, l), l)) == v,
{
    let p = pow256((l - 1) as nat);
    assert(pow256(l) == 256 * p);
    let t = twos(v, l);
    let s = le_bytes(t, l);
    lemma_le_bytes_len(t, l);
    lemma_le_bytes_value(t, l);
    lemma_le_value_last(s);
    if v >= 0 {
        assert(s.last() < 128) by (nonlinear_arith)
            requires
                le_value(s) == le_value(s.drop_last()) + s.last() * p,
                le_value(s) < 128 * p,
                le_value(s.drop_last()) >= 0,
        ;
    } else {
        assert(s.last() >= 128) by (nonlinear_arith)
            requires
                le_value(s) == le_value(s.drop_last()) + s.last() * p,
                le_value(s) >= 128 * p,
                le_value(s.drop_last()) < p,
        ;
    }
}

/// `slen(v)` is the least number of bytes that holds `v` in two's complement.
pub proof fn lemma_slen(v: int)
    ensures
        1 <= slen(v),
        fits_signed(v, slen(v)),
        slen(v) > 1 ==> !fits_signed(v, (slen(v) - 1) as nat),
{
    let m: nat = if v >= 0 {
        v as nat
    } else {
        (-v - 1) as nat
    };
    lemma_mag_len(m);
}

pub proof fn lemma_slen_le(v: int, k: nat)
    requires
        fits_signed(v, k),
    ensures
        slen(v) <= k,
{
    let m: nat = if v >= 0 {
        v as nat
    } else {
        (-v - 1) as nat
    };
    lemma_mag_len_le(m, k);
}

pub proof fn lemma_pow_two_values()
    ensures
        pow_two(0) == 1,
        pow_two(23) == 0x80_0000,
        pow_two(52) == 0x10_0000_0000_0000,
        pow_two(63) == 0x8000_0000_0000_0000,
{
    reveal_with_fuel(pow_two, 64);
}

pub proof fn lemma_pow_two_mono(a: nat, b: nat)
    requires
        a <= b,
    ensures
        1 <= pow_two(a) <= pow_two(b),
    decreases b,
{
    if a < b {
        lemma_pow_two_mono(a, (b - 1) as nat);
    } else if a > 0 {
        lemma_pow_two_mono((a - 1) as nat, (a - 1) as nat);
    }
}

pub proof fn lemma_rev_bound(x: nat, n: nat)
    ensures
        rev_bits(x, n) < pow_two(n),
    decreases n,
{
    if n > 0 {
        lemma_rev_bound(x / 2, (n - 1) as nat);
        let p = pow_two((n - 1) as nat);
        assert((x % 2) * p <= p) by (nonlinear_arith)
            requires
                x % 2 <= 1,
                p >= 0,
        ;
    }
}

/// The most significant of the `n` bits becomes the least significant one.
pub proof fn lemma_rev_top(x: nat, n: nat)
    requires
        n >= 1,
        x < pow_two(n),
    ensures
        rev_bits(x, n) == 2 * rev_bits(x % pow_two((n - 1) as nat), (n - 1) as nat) + x / pow_two(
            (n - 1) as nat,
        ),
    decreases n,
{
    if n == 1 {
        assert(pow_two(0) == 1);
        assert(rev_bits(x, 1) == (x % 2) * 1 + rev_bits(x / 2, 0));
    } else {
        let p = pow_two((n - 1) as nat);
        let q = pow_two((n - 2) as nat);
        assert(p == 2 * q);
        lemma_pow_two_mono(0, (n - 2) as nat);
        lemma_fundamental_div_mod(x as int, 2);
        assert(x / 2 < p) by (nonlinear_arith)
            requires
                x < 2 * p,
                x == 2 * (x / 2) + x % 2,
                x % 2 >= 0,
        ;
        lemma_rev_top(x / 2, (n - 1) as nat);
        lemma_mod_breakdown(x as int, 2, q as int);
        let xm = x % p;
        lemma_fundamental_div_mod_converse(xm as int, 2, ((x / 2) % q) as int, (x % 2) as int);
        lemma_div_denominator(x as int, 2, q as int);
        assert(rev_bits(xm, (n - 1) as nat) == (xm % 2) * q + rev_bits(xm / 2, (n - 2) as nat));
        assert(2 * ((x % 2) * q) == (x % 2) * p) by (nonlinear_arith)
            requires
                p == 2 * q,
        ;
    }
}

/// Reversing the `n` low bits twice gives them back.
pub proof fn lemma_rev_involution(x: nat, n: nat)
    requires
        x < pow_two(n),
    ensures
        rev_bits(rev_bits(x, n), n) == x,
    decreases n,
{
    if n > 0 {
        let p = pow_two((n - 1) as nat);
        let z = rev_bits(x / 2, (n - 1) as nat);
        lemma_rev_bound(x / 2, (n - 1) as nat);
        lemma_fundamental_div_mod(x as int, 2);
        assert(x / 2 < p) by (nonlinear_arith)
            requires
                x < 2 * p,
                x == 2 * (x / 2) + x % 2,
                x % 2 >= 0,
        ;
        let y = rev_bits(x, n);
        assert(y == (x % 2) * p + z);
        assert(y < 2 * p) by (nonlinear_arith)
            requires
                y == (x % 2) * p + z,
                z < p,
                x % 2 <= 1,
        ;
        lemma_rev_top(y, n);
        lemma_fundamental_div_mod_converse(y as int, p as int, (x % 2) as int, z as int);
        lemma_rev_involution(x / 2, (n - 1) as nat);
    }
}

pub proof fn lemma_rev_zero(n: nat)
    ensures
        rev_bits(0, n) == 0,
    decreases n,
{
    if n > 0 {
        lemma_rev_zero((n - 1) as nat);
        assert(0nat / 2 == 0 && 0nat % 2 == 0);
        assert(rev_bits(0, n) == 0 * pow_two((n - 1) as nat) + rev_bits(0, (n - 1) as nat));
    }
}

/// A decoded signed integer always fits the width it was decoded for.
pub proof fn lemma_sign_extended_fits(t: Seq<u8>, w: nat)
    requires
        1 <= t.len() <= w,
    ensures
        fits_signed(sign_extended(t), w),
{
    let b = t.len();
    let p = pow256((b - 1) as nat);
    lemma_le_value_last(t);
    lemma_le_value_bound(t);
    assert(pow256(b) == 256 * p);
    if t.last() >= 128 {
        assert(le_value(t) >= 128 * p) by (nonlinear_arith)
            requires
                le_value(t) == le_value(t.drop_last()) + t.last() * p,
                t.last() >= 128,
                p >= 0,
        ;
    } else {
        assert(le_value(t) < 128 * p) by (nonlinear_arith)
            requires
                le_value(t) == le_value(t.drop_last()) + t.last() * p,
                t.last() < 128,
                le_value(t.drop_last()) < p,
        ;
    }
    lemma_pow256_mono((b - 1) as nat, (w - 1) as nat);
}

} // verus!
