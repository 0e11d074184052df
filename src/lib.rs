//! A compact, non-self-describing binary encoding of structured values.
use vstd::prelude::*;

pub mod buf;
pub mod de;
pub mod encoding;
pub mod error;
pub mod laws;
pub mod model;
pub mod prefix;
pub mod proofs;
pub mod ser;

pub use crate::error::{Error, Result};

use crate::encoding::{le_value, pow256, pow_two, rev_bits, sign_extended};
use crate::proofs::{lemma_pow_two_mono, lemma_pow_two_values, lemma_sign_extend_step};

verus! {

/// The two's-complement value of `bytes`, little-endian, sign-extended from
/// its top bit.
pub fn sign_extend_le(bytes: &[u8]) -> (r: i128)
    requires
        1 <= bytes@.len() <= 16,
    ensures
        r == sign_extended(bytes@),
{
    let n = bytes.len();
    let negative = bytes[n - 1] >= 128;
    let mut acc: i128 = if negative { -1 } else { 0 };
    let mut i: usize = n;
    while i > 0
        invariant
            0 <= i <= n,
            n == bytes@.len(),
            1 <= n <= 16,
            negative == (bytes@.last() >= 128),
            acc == le_value(bytes@.subrange(i as int, n as int)) - (if negative {
                pow256((n - i) as nat) as int
            } else {
                0
            }),
        decreases i,
    {
        i = i - 1;
        proof {
            lemma_sign_extend_step(bytes@, i as nat, negative);
        }
        acc = acc * 256 + bytes[i] as i128;
    }
    proof {
        assert(bytes@.subrange(0, n as int) =~= bytes@);
    }
    acc
}

/// The `n` low bits of `x` in reverse order.
pub fn reverse_low_bits(x: u64, n: u64) -> (r: u64)
    requires
        n <= 63,
    ensures
        r == rev_bits(x as nat, n as nat),
        r < pow_two(n as nat),
{
    let mut acc: u64 = 0;
    let mut y: u64 = x;
    let mut i: u64 = 0;
    proof {
        lemma_pow_two_values();
        lemma_pow_two_mono(n as nat, 63);
    }
    while i < n
        invariant
            i <= n <= 63,
            pow_two(n as nat) <= 0x8000_0000_0000_0000,
            acc < pow_two(i as nat),
            rev_bits(x as nat, n as nat) == acc * pow_two((n - i) as nat) + rev_bits(
                y as nat,
                (n - i) as nat,
            ),
        decreases n - i,
    {
        let ghost k = (n - i) as nat;
        let ghost p = pow_two((k - 1) as nat);
        proof {
            lemma_pow_two_mono((i + 1) as nat, n as nat);
            assert(pow_two(k) == 2 * p);
            assert(acc * pow_two(k) + (y % 2) * p == (2 * acc + y % 2) * p) by (nonlinear_arith)
                requires
                    pow_two(k) == 2 * p,
            ;
        }
        acc = acc * 2 + y % 2;
        y = y / 2;
        i = i + 1;
    }
    assert(pow_two(0) == 1 && rev_bits(y as nat, 0) == 0);
    assert(acc * pow_two(0) == acc);
    acc
}

} // verus!
