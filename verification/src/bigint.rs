//! Conversions between arbitrary-precision integers (`num_bigint::BigInt`)
//! and field elements.

use vstd::prelude::*;
use vstd::arithmetic::power::pow;
use num_bigint::BigInt;
use num_traits::ToPrimitive;
use crate::field::{Fr, fr_modulus, fr_sub_spec, bytes_value, fr_neg, fr_from_le_bytes_mod_order, field_to_bytes};

verus! {

#[verifier::external_type_specification]
#[verifier::external_body]
pub struct ExBigInt(BigInt);

/// The integer that a `BigInt` holds.
pub uninterp spec fn bigint_value(n: BigInt) -> int;

/// Length of the shortest two's-complement encoding of `v` in bytes.
pub open spec fn signed_len(v: int) -> nat
    decreases (if v < 0 { -v } else { v }),
{
    if -128 <= v < 128 {
        1
    } else {
        proof {
            if v >= 128 {
                assert(0 <= v / 256 < v) by (nonlinear_arith)
                    requires v >= 128;
            } else {
                assert(v <= v / 256 < 0) by (nonlinear_arith)
                    requires v < -128;
            }
        }
        1 + signed_len(v / 256)
    }
}

/// Calls `num_traits::ToPrimitive::to_u64` on a `BigInt`: the value when it
/// fits in `u64`.
#[verifier::external_body]
fn bigint_to_u64(n: &BigInt) -> (r: Option<u64>)
    ensures
        r == (if 0 <= bigint_value(*n) < 0x1_0000_0000_0000_0000 {
            Some(bigint_value(*n) as u64)
        } else {
            None::<u64>
        }),
{
    n.to_u64()
}

/// Calls `num_traits::ToPrimitive::to_i64` on a `BigInt`: the value when it
/// fits in `i64`.
#[verifier::external_body]
fn bigint_to_i64(n: &BigInt) -> (r: Option<i64>)
    ensures
        r == (if -0x8000_0000_0000_0000 <= bigint_value(*n) < 0x8000_0000_0000_0000 {
            Some(bigint_value(*n) as i64)
        } else {
            None::<i64>
        }),
{
    n.to_i64()
}

/// Calls `BigInt::to_signed_bytes_le`: the shortest two's-complement
/// little-endian encoding of the value.
#[verifier::external_body]
fn bigint_signed_bytes_le(n: &BigInt) -> (r: Vec<u8>)
    ensures
        r@.len() == signed_len(bigint_value(*n)),
        bytes_value(r@) == bigint_value(*n) % pow(256, r@.len()),
{
    n.to_signed_bytes_le()
}

/// Calls `BigInt::from_bytes_le` with a plus sign: the non-negative integer
/// whose little-endian bytes are `bytes`.
#[verifier::external_body]
fn bigint_from_le_bytes(bytes: &[u8]) -> (r: BigInt)
    ensures
        bigint_value(r) == bytes_value(bytes@),
{
    BigInt::from_bytes_le(num_bigint::Sign::Plus, bytes)
}

/// The field element that `bigint_to_fr` gives for the integer `v`: `v` itself
/// when it fits in `u64`, its negation's additive inverse when it fits in
/// `i64`, and otherwise the value of its shortest two's-complement bytes,
/// read as unsigned, reduced modulo the field order.
pub open spec fn bigint_fr_spec(v: int) -> nat {
    if 0 <= v < 0x1_0000_0000_0000_0000 {
        v as nat
    } else if -0x8000_0000_0000_0000 <= v < 0 {
        fr_sub_spec(0, (-v) as nat)
    } else {
        ((v % pow(256, signed_len(v))) as nat) % fr_modulus()
    }
}

/// Converts an integer to a field element (see [`bigint_fr_spec`]).
pub fn bigint_to_fr(n: &BigInt) -> (r: Fr)
    ensures
        r.val() == bigint_fr_spec(bigint_value(*n)),
{
    match bigint_to_u64(n) {
        Some(u) => {
            return Fr::from_u64(u);
        },
        None => {},
    }
    match bigint_to_i64(n) {
        Some(i) => {
            let a: u64 = if i == i64::MIN { 0x8000_0000_0000_0000u64 } else { (-i) as u64 };
            return fr_neg(&Fr::from_u64(a));
        },
        None => {},
    }
    let bytes = bigint_signed_bytes_le(n);
    proof {
        vstd::arithmetic::power::lemma_pow_positive(256, bytes@.len());
    }
    fr_from_le_bytes_mod_order(bytes.as_slice())
}

/// The non-negative integer equal to the canonical value of `f`.
pub fn fr_to_bigint(f: Fr) -> (r: BigInt)
    ensures
        bigint_value(r) == f.val(),
{
    let bytes = field_to_bytes(f);
    bigint_from_le_bytes(&bytes)
}

/// The shortest two's-complement encoding of `v` holds it.
proof fn lemma_signed_len_bound(v: int)
    ensures
        -pow(256, signed_len(v)) <= 2 * v < pow(256, signed_len(v)),
    decreases (if v < 0 { -v } else { v }),
{
    if -128 <= v < 128 {
        vstd::arithmetic::power::lemma_pow1(256);
    } else {
        let q = v / 256;
        if v >= 128 {
            assert(0 <= q < v) by (nonlinear_arith)
                requires v >= 128, q == v / 256;
        } else {
            assert(v <= q < 0) by (nonlinear_arith)
                requires v < -128, q == v / 256;
        }
        lemma_signed_len_bound(q);
        let l = signed_len(q);
        let p = pow(256, l);
        vstd::arithmetic::power::lemma_pow_adds(256, 1, l);
        vstd::arithmetic::power::lemma_pow1(256);
        vstd::arithmetic::power::lemma_pow_positive(256, l);
        assert(pow(256, signed_len(v)) == 256 * p);
        assert(p % 2 == 0) by {
            if l == 0 {
                assert(signed_len(q) >= 1);
            }
            vstd::arithmetic::power::lemma_pow_adds(256, 1, (l - 1) as nat);
            vstd::arithmetic::power::lemma_pow_positive(256, (l - 1) as nat);
            assert(p == 256 * pow(256, (l - 1) as nat));
        }
        assert(-(256 * p) <= 2 * v < 256 * p) by (nonlinear_arith)
            requires
                -p <= 2 * q < p,
                p % 2 == 0,
                p > 0,
                q == v / 256,
        {
            assert(v == 256 * q + v % 256);
            assert(0 <= v % 256 < 256);
        }
    }
}

/// Converting the value of a field element gives that element back: for
/// `0 <= v < fr_modulus()`, [`bigint_fr_spec`] is `v`.
pub proof fn lemma_bigint_fr_roundtrip(v: int)
    requires
        0 <= v < fr_modulus(),
    ensures
        bigint_fr_spec(v) == v,
{
    if v >= 0x1_0000_0000_0000_0000 {
        lemma_signed_len_bound(v);
        vstd::arithmetic::div_mod::lemma_small_mod(v as nat, pow(256, signed_len(v)) as nat);
        vstd::arithmetic::div_mod::lemma_small_mod(v as nat, fr_modulus());
    }
}

} // verus!
