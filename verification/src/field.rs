//! Prime field elements of BN254 held as four little-endian 64-bit limbs.
//!
//! Arithmetic is delegated to `ark_bn254`; each call converts the limbs to an
//! `ark_bn254::Fr`, performs the operation and converts the canonical result
//! back.

use vstd::prelude::*;
use vstd::arithmetic::power::pow;
use vstd::arithmetic::power2::pow2;
use ark_ff::{Field, PrimeField};
use crate::codec::{limbs_le_bytes, lemma_limbs_value, limbs_to_bytes, bytes_to_limbs};

verus! {

/// The order of the BN254 scalar field.
pub open spec fn fr_modulus() -> nat {
    21888242871839275222246405745257275088548364400416034343698204186575808495617nat
}

/// Difference of two integers reduced into `0..fr_modulus()`.
pub open spec fn fr_sub_spec(a: nat, b: nat) -> nat {
    ((a - b) % (fr_modulus() as int)) as nat
}

/// Value of four little-endian 64-bit limbs.
pub open spec fn limbs_value(l0: u64, l1: u64, l2: u64, l3: u64) -> nat {
    l0 as nat + 0x1_0000_0000_0000_0000nat * l1 as nat
        + 0x1_0000_0000_0000_0000_0000_0000_0000_0000nat * l2 as nat
        + 0x1_0000_0000_0000_0000_0000_0000_0000_0000_0000_0000_0000_0000nat * l3 as nat
}

/// An element of the BN254 scalar field, in canonical form.
#[derive(Clone, Copy, Debug, PartialEq, Eq, Structural)]
pub struct Fr {
    pub(crate) l0: u64,
    pub(crate) l1: u64,
    pub(crate) l2: u64,
    pub(crate) l3: u64,
}

impl Fr {
    #[verifier::type_invariant]
    spec fn canonical(self) -> bool {
        limbs_value(self.l0, self.l1, self.l2, self.l3) < fr_modulus()
    }

    /// The integer in `0..fr_modulus()` that this element stands for.
    pub closed spec fn val(self) -> nat {
        limbs_value(self.l0, self.l1, self.l2, self.l3)
    }

    /// Two elements are equal exactly when their values are.
    pub proof fn lemma_val_injective(self, other: Fr)
        ensures self.val() == other.val() <==> self == other,
    {
        let a = self;
        let b = other;
        if a.val() == b.val() {
            assert(a.l0 == b.l0 && a.l1 == b.l1 && a.l2 == b.l2 && a.l3 == b.l3) by (nonlinear_arith)
                requires
                    limbs_value(a.l0, a.l1, a.l2, a.l3) == limbs_value(b.l0, b.l1, b.l2, b.l3),
            {
            }
        }
    }

    /// The element whose value is `n` reduced modulo the field order.
    pub closed spec fn from_val(n: nat) -> Fr {
        let m = n % fr_modulus();
        Fr {
            l0: (m % 0x1_0000_0000_0000_0000nat) as u64,
            l1: ((m / 0x1_0000_0000_0000_0000nat) % 0x1_0000_0000_0000_0000nat) as u64,
            l2: ((m / 0x1_0000_0000_0000_0000_0000_0000_0000_0000nat) % 0x1_0000_0000_0000_0000nat) as u64,
            l3: (m / 0x1_0000_0000_0000_0000_0000_0000_0000_0000_0000_0000_0000_0000nat) as u64,
        }
    }

    /// The element made from `n` holds `n` reduced modulo the field order.
    pub proof fn lemma_from_val(n: nat)
        ensures Fr::from_val(n).val() == n % fr_modulus(),
    {
        let m: int = (n % fr_modulus()) as int;
        let b: int = 0x1_0000_0000_0000_0000;
        let q1 = m / b;
        let q2 = q1 / b;
        let q3 = q2 / b;
        vstd::arithmetic::div_mod::lemma_fundamental_div_mod(m, b);
        vstd::arithmetic::div_mod::lemma_fundamental_div_mod(q1, b);
        vstd::arithmetic::div_mod::lemma_fundamental_div_mod(q2, b);
        vstd::arithmetic::div_mod::lemma_div_denominator(m, b, b);
        vstd::arithmetic::div_mod::lemma_div_denominator(q1, b, b);
        vstd::arithmetic::div_mod::lemma_div_denominator(m, b * b, b);
        vstd::arithmetic::div_mod::lemma_mod_pos_bound(m, b);
        vstd::arithmetic::div_mod::lemma_mod_pos_bound(q1, b);
        vstd::arithmetic::div_mod::lemma_mod_pos_bound(q2, b);
        assert(q3 < b) by (nonlinear_arith)
            requires
                0 <= m < 0x4000_0000_0000_0000_0000_0000_0000_0000_0000_0000_0000_0000_0000_0000_0000_0000int,
                m == b * q1 + m % b, 0 <= m % b,
                q1 == b * q2 + q1 % b, 0 <= q1 % b,
                q2 == b * q3 + q2 % b, 0 <= q2 % b,
                b == 0x1_0000_0000_0000_0000int,
        ;
        assert(m == q3 * b * b * b + (q2 % b) * b * b + (q1 % b) * b + m % b) by (nonlinear_arith)
            requires
                m == b * q1 + m % b,
                q1 == b * q2 + q1 % b,
                q2 == b * q3 + q2 % b,
        ;
    }

    /// The element whose canonical little-endian limbs are given.
    pub fn from_limbs(l0: u64, l1: u64, l2: u64, l3: u64) -> (r: Fr)
        requires
            limbs_value(l0, l1, l2, l3) < fr_modulus(),
        ensures
            r.val() == limbs_value(l0, l1, l2, l3),
    {
        Fr { l0, l1, l2, l3 }
    }

    /// The additive identity.
    pub fn zero() -> (r: Fr)
        ensures r.val() == 0,
    {
        Fr { l0: 0, l1: 0, l2: 0, l3: 0 }
    }

    /// The element with value `v`.
    pub fn from_u64(v: u64) -> (r: Fr)
        ensures r.val() == v,
    {
        Fr { l0: v, l1: 0, l2: 0, l3: 0 }
    }
}

/// Calls `ark_bn254::Fr + ark_bn254::Fr`: field addition, that is the sum of
/// the two canonical values reduced modulo the field order.
#[verifier::external_body]
pub(crate) fn fr_add(a: &Fr, b: &Fr) -> (r: Fr)
    ensures r.val() == (a.val() + b.val()) % fr_modulus(),
{
    let x = ark_bn254::Fr::from_bigint(ark_ff::BigInt([a.l0, a.l1, a.l2, a.l3])).unwrap();
    let y = ark_bn254::Fr::from_bigint(ark_ff::BigInt([b.l0, b.l1, b.l2, b.l3])).unwrap();
    let l = (x + y).into_bigint().0;
    Fr { l0: l[0], l1: l[1], l2: l[2], l3: l[3] }
}

/// Calls `ark_bn254::Fr - ark_bn254::Fr`: field subtraction.
#[verifier::external_body]
pub(crate) fn fr_sub(a: &Fr, b: &Fr) -> (r: Fr)
    ensures r.val() == fr_sub_spec(a.val(), b.val()),
{
    let x = ark_bn254::Fr::from_bigint(ark_ff::BigInt([a.l0, a.l1, a.l2, a.l3])).unwrap();
    let y = ark_bn254::Fr::from_bigint(ark_ff::BigInt([b.l0, b.l1, b.l2, b.l3])).unwrap();
    let l = (x - y).into_bigint().0;
    Fr { l0: l[0], l1: l[1], l2: l[2], l3: l[3] }
}

/// Calls `ark_bn254::Fr * ark_bn254::Fr`: field multiplication.
#[verifier::external_body]
pub(crate) fn fr_mul(a: &Fr, b: &Fr) -> (r: Fr)
    ensures r.val() == (a.val() * b.val()) % fr_modulus(),
{
    let x = ark_bn254::Fr::from_bigint(ark_ff::BigInt([a.l0, a.l1, a.l2, a.l3])).unwrap();
    let y = ark_bn254::Fr::from_bigint(ark_ff::BigInt([b.l0, b.l1, b.l2, b.l3])).unwrap();
    let l = (x * y).into_bigint().0;
    Fr { l0: l[0], l1: l[1], l2: l[2], l3: l[3] }
}

/// Calls `-ark_bn254::Fr`: the additive inverse.
#[verifier::external_body]
pub(crate) fn fr_neg(a: &Fr) -> (r: Fr)
    ensures r.val() == fr_sub_spec(0, a.val()),
{
    let x = ark_bn254::Fr::from_bigint(ark_ff::BigInt([a.l0, a.l1, a.l2, a.l3])).unwrap();
    let l = (-x).into_bigint().0;
    Fr { l0: l[0], l1: l[1], l2: l[2], l3: l[3] }
}

/// Whether `i` is the multiplicative inverse of `a` in the field.
pub open spec fn is_fr_inverse(a: nat, i: nat) -> bool {
    i < fr_modulus() && (a * i) % fr_modulus() == 1
}

/// The multiplicative inverse of `a` (unique, the field order being prime).
pub open spec fn fr_inverse_spec(a: nat) -> nat {
    choose|i: nat| #[trigger] is_fr_inverse(a, i)
}

/// Calls `ark_ff::Field::inverse`: `None` for zero, otherwise the element whose
/// product with `a` is one, which is unique as the field order is prime.
#[verifier::external_body]
pub(crate) fn fr_inverse(a: &Fr) -> (r: Option<Fr>)
    ensures
        r is None <==> a.val() == 0,
        r matches Some(i) ==> is_fr_inverse(a.val(), i.val()) && i.val() == fr_inverse_spec(a.val()),
{
    let x = ark_bn254::Fr::from_bigint(ark_ff::BigInt([a.l0, a.l1, a.l2, a.l3])).unwrap();
    match x.inverse() {
        Some(i) => {
            let l = i.into_bigint().0;
            Some(Fr { l0: l[0], l1: l[1], l2: l[2], l3: l[3] })
        },
        None => None,
    }
}

/// Calls `ark_ff::Field::pow` with a single-limb exponent.
#[verifier::external_body]
pub(crate) fn fr_pow(a: &Fr, e: u64) -> (r: Fr)
    ensures r.val() == pow(a.val() as int, e as nat) % (fr_modulus() as int),
{
    let x = ark_bn254::Fr::from_bigint(ark_ff::BigInt([a.l0, a.l1, a.l2, a.l3])).unwrap();
    let l = x.pow([e]).into_bigint().0;
    Fr { l0: l[0], l1: l[1], l2: l[2], l3: l[3] }
}

/// Value of a little-endian byte string.
pub open spec fn bytes_value(b: Seq<u8>) -> nat
    decreases b.len(),
{
    if b.len() == 0 {
        0
    } else {
        b[0] as nat + 256 * bytes_value(b.drop_first())
    }
}

/// Calls `ark_ff::PrimeField::from_le_bytes_mod_order`: the little-endian
/// value of `bytes` reduced modulo the field order.
#[verifier::external_body]
pub(crate) fn fr_from_le_bytes_mod_order(bytes: &[u8]) -> (r: Fr)
    ensures r.val() == bytes_value(bytes@) % fr_modulus(),
{
    let l = ark_bn254::Fr::from_le_bytes_mod_order(bytes).into_bigint().0;
    Fr { l0: l[0], l1: l[1], l2: l[2], l3: l[3] }
}

/// The ASCII digit for `d < 10`.
pub open spec fn digit_char(d: nat) -> char {
    ((48 + d) as u8) as char
}

/// Decimal representation of `n` without leading zeroes (`"0"` for zero).
pub open spec fn decimal(n: nat) -> Seq<char>
    decreases n,
{
    if n < 10 {
        seq![digit_char(n)]
    } else {
        decimal(n / 10).push(digit_char(n % 10))
    }
}

/// Whether `c` is an ASCII decimal digit.
pub open spec fn is_digit(c: char) -> bool {
    '0' <= c && c <= '9'
}

/// Whether `c` is an ASCII decimal digit or an underscore.
pub open spec fn is_digit_or_underscore(c: char) -> bool {
    is_digit(c) || c == '_'
}

/// Value of a run of decimal digits in which underscores are skipped.
pub open spec fn digits_value(s: Seq<char>) -> nat
    decreases s.len(),
{
    if s.len() == 0 {
        0
    } else if s.last() == '_' {
        digits_value(s.drop_last())
    } else {
        10 * digits_value(s.drop_last()) + (s.last() as nat - 48) as nat
    }
}

/// The unsigned decimal syntax: an optional single `+`, then a digit followed
/// by digits and underscores.
pub open spec fn parse_unsigned_decimal(s: Seq<char>) -> Option<nat> {
    let t = if s.len() > 0 && s[0] == '+' && !(s.len() > 1 && s[1] == '+') {
        s.drop_first()
    } else {
        s
    };
    if t.len() > 0 && t[0] != '_' && (forall|i: int| 0 <= i < t.len() ==> #[trigger] is_digit_or_underscore(t[i])) {
        Some(digits_value(t))
    } else {
        None
    }
}

/// The signed decimal syntax: an optional `-` (not followed by `+`) in front
/// of the unsigned syntax.
pub open spec fn parse_decimal(s: Seq<char>) -> Option<int> {
    if s.len() > 0 && s[0] == '-' {
        if s.len() > 1 && s[1] == '+' {
            None
        } else {
            match parse_unsigned_decimal(s.drop_first()) {
                Some(v) => Some(-v),
                None => None,
            }
        }
    } else {
        match parse_unsigned_decimal(s) {
            Some(v) => Some(v as int),
            None => None,
        }
    }
}

/// The field element that a decimal string denotes, when it denotes one: the
/// integer reduced modulo `m`.
pub open spec fn parse_field_decimal(s: Seq<char>, m: nat) -> Option<nat> {
    match parse_decimal(s) {
        Some(v) => Some((v % (m as int)) as nat),
        None => None,
    }
}

/// Calls `<ark_bn254::Fr as FromStr>::from_str`, which reads a signed decimal
/// integer and reduces it modulo the field order.
#[verifier::external_body]
pub(crate) fn fr_from_str(s: &str) -> (r: Option<Fr>)
    ensures
        r is Some <==> parse_field_decimal(s@, fr_modulus()) is Some,
        r matches Some(f) ==> f.val() == parse_field_decimal(s@, fr_modulus())->0,
{
    match <ark_bn254::Fr as std::str::FromStr>::from_str(s) {
        Ok(f) => {
            let l = f.into_bigint().0;
            Some(Fr { l0: l[0], l1: l[1], l2: l[2], l3: l[3] })
        },
        Err(()) => None,
    }
}

/// Calls `<ark_bn254::Fr as Display>::fmt` (through `to_string`): the decimal
/// form of the canonical value.
#[verifier::external_body]
pub(crate) fn fr_to_string(a: &Fr) -> (r: String)
    ensures r@ == decimal(a.val()),
{
    let x = ark_bn254::Fr::from_bigint(ark_ff::BigInt([a.l0, a.l1, a.l2, a.l3])).unwrap();
    x.to_string()
}

/// Bitwise conjunction of two naturals.
pub open spec fn bit_and(a: nat, b: nat) -> nat
    decreases a,
{
    if a == 0 || b == 0 {
        0
    } else {
        2 * bit_and(a / 2, b / 2) + (a % 2) * (b % 2)
    }
}

/// Calls `num_bigint::BigUint` division on the canonical values and reduces the
/// quotient back into the field (`Fr::from(BigUint)`).
#[verifier::external_body]
pub(crate) fn fr_int_div(a: &Fr, b: &Fr) -> (r: Fr)
    requires b.val() != 0,
    ensures r.val() == (a.val() / b.val()) % fr_modulus(),
{
    let x = num_bigint::BigUint::from(ark_ff::BigInt([a.l0, a.l1, a.l2, a.l3]));
    let y = num_bigint::BigUint::from(ark_ff::BigInt([b.l0, b.l1, b.l2, b.l3]));
    let l = ark_bn254::Fr::from(x / y).into_bigint().0;
    Fr { l0: l[0], l1: l[1], l2: l[2], l3: l[3] }
}

/// Calls `num_bigint::BigUint` bitwise and on the canonical values and reduces
/// the result back into the field.
#[verifier::external_body]
pub(crate) fn fr_int_and(a: &Fr, b: &Fr) -> (r: Fr)
    ensures r.val() == bit_and(a.val(), b.val()) % fr_modulus(),
{
    let x = num_bigint::BigUint::from(ark_ff::BigInt([a.l0, a.l1, a.l2, a.l3]));
    let y = num_bigint::BigUint::from(ark_ff::BigInt([b.l0, b.l1, b.l2, b.l3]));
    let l = ark_bn254::Fr::from(x & y).into_bigint().0;
    Fr { l0: l[0], l1: l[1], l2: l[2], l3: l[3] }
}

/// Calls `num_bigint::BigUint` left shift on the canonical value and reduces
/// the result back into the field.
#[verifier::external_body]
pub(crate) fn fr_int_shl(a: &Fr, n: u32) -> (r: Fr)
    ensures r.val() == (a.val() * pow2(n as nat)) % fr_modulus(),
{
    let x = num_bigint::BigUint::from(ark_ff::BigInt([a.l0, a.l1, a.l2, a.l3]));
    let l = ark_bn254::Fr::from(x << n).into_bigint().0;
    Fr { l0: l[0], l1: l[1], l2: l[2], l3: l[3] }
}

/// Calls `num_bigint::BigUint` right shift on the canonical value and reduces
/// the result back into the field.
#[verifier::external_body]
pub(crate) fn fr_int_shr(a: &Fr, n: u32) -> (r: Fr)
    ensures r.val() == (a.val() / pow2(n as nat)) % fr_modulus(),
{
    let x = num_bigint::BigUint::from(ark_ff::BigInt([a.l0, a.l1, a.l2, a.l3]));
    let l = ark_bn254::Fr::from(x >> n).into_bigint().0;
    Fr { l0: l[0], l1: l[1], l2: l[2], l3: l[3] }
}

impl Fr {
    /// Integer comparison of the canonical values.
    pub fn lt(&self, other: &Fr) -> (r: bool)
        ensures r == (self.val() < other.val()),
    {
        let a = *self;
        let b = *other;
        if a.l3 != b.l3 {
            a.l3 < b.l3
        } else if a.l2 != b.l2 {
            a.l2 < b.l2
        } else if a.l1 != b.l1 {
            a.l1 < b.l1
        } else {
            a.l0 < b.l0
        }
    }

    /// Whether this is the additive identity.
    pub fn is_zero(&self) -> (r: bool)
        ensures r == (self.val() == 0),
    {
        self.l0 == 0 && self.l1 == 0 && self.l2 == 0 && self.l3 == 0
    }

    /// The lowest 64-bit limb of the canonical value.
    pub fn low_limb(&self) -> (r: u64)
        ensures r == self.val() % 0x1_0000_0000_0000_0000,
    {
        proof {
            let k: int = self.l1 + 0x1_0000_0000_0000_0000 * self.l2
                + 0x1_0000_0000_0000_0000_0000_0000_0000_0000 * self.l3;
            assert(self.val() == 0x1_0000_0000_0000_0000 * k + self.l0);
            vstd::arithmetic::div_mod::lemma_mod_multiples_vanish(k, self.l0 as int, 0x1_0000_0000_0000_0000);
            vstd::arithmetic::div_mod::lemma_small_mod(self.l0 as nat, 0x1_0000_0000_0000_0000);
        }
        self.l0
    }
}

/// The serialization of field elements: their decimal text in readable
/// formats, their 32 little-endian canonical bytes
/// ([`field_to_bytes`], [`field_from_bytes`]) in binary ones.
pub struct FieldElement;

impl FieldElement {
    /// The scalar-field element that a decimal text denotes: a signed
    /// decimal integer reduced modulo the field order.
    pub fn fr_from_text(s: &str) -> (r: Option<Fr>)
        ensures
            r is Some <==> parse_field_decimal(s@, fr_modulus()) is Some,
            r matches Some(f) ==> f.val() == parse_field_decimal(s@, fr_modulus())->0,
    {
        fr_from_str(s)
    }

    /// The decimal text of a scalar-field element.
    pub fn fr_to_text(f: &Fr) -> (r: String)
        ensures
            r@ == decimal(f.val()),
    {
        fr_to_string(f)
    }

    /// The base-field element that a decimal text denotes: a signed decimal
    /// integer reduced modulo the field order.
    pub fn fq_from_text(s: &str) -> (r: Option<Fq>)
        ensures
            r is Some <==> parse_field_decimal(s@, fq_modulus()) is Some,
            r matches Some(f) ==> f.val() == parse_field_decimal(s@, fq_modulus())->0,
    {
        fq_from_str(s)
    }

    /// The decimal text of a base-field element.
    pub fn fq_to_text(f: &Fq) -> (r: String)
        ensures
            r@ == decimal(f.val()),
    {
        fq_to_string(f)
    }
}

/// The 32 little-endian bytes of the canonical value of `f`.
pub fn field_to_bytes(f: Fr) -> (r: [u8; 32])
    ensures
        r@ == f.spec_bytes(),
        bytes_value(r@) == f.val(),
        bytes_value(r@) < fr_modulus(),
{
    proof {
        use_type_invariant(f);
        lemma_limbs_value(f.l0, f.l1, f.l2, f.l3);
    }
    limbs_to_bytes(f.l0, f.l1, f.l2, f.l3)
}

/// The element whose canonical little-endian bytes are `bytes`.
pub fn field_from_bytes(bytes: [u8; 32]) -> (r: Fr)
    requires
        bytes_value(bytes@) < fr_modulus(),
    ensures
        r.val() == bytes_value(bytes@),
        r.spec_bytes() == bytes@,
{
    let (l0, l1, l2, l3) = bytes_to_limbs(&bytes);
    proof {
        lemma_limbs_value(l0, l1, l2, l3);
    }
    Fr { l0, l1, l2, l3 }
}


/// The order of the BN254 base field.
pub open spec fn fq_modulus() -> nat {
    21888242871839275222246405745257275088696311157297823662689037894645226208583nat
}

/// An element of the BN254 base field, in canonical form.
#[derive(Clone, Copy, Debug, PartialEq, Eq, Structural)]
pub struct Fq {
    pub(crate) l0: u64,
    pub(crate) l1: u64,
    pub(crate) l2: u64,
    pub(crate) l3: u64,
}

impl Fq {
    #[verifier::type_invariant]
    spec fn canonical(self) -> bool {
        limbs_value(self.l0, self.l1, self.l2, self.l3) < fq_modulus()
    }

    /// The integer in `0..fq_modulus()` that this element stands for.
    pub closed spec fn val(self) -> nat {
        limbs_value(self.l0, self.l1, self.l2, self.l3)
    }

    /// Two elements are equal exactly when their values are.
    pub proof fn lemma_val_injective(self, other: Fq)
        ensures self.val() == other.val() <==> self == other,
    {
        let a = self;
        let b = other;
        if a.val() == b.val() {
            assert(a.l0 == b.l0 && a.l1 == b.l1 && a.l2 == b.l2 && a.l3 == b.l3) by (nonlinear_arith)
                requires
                    limbs_value(a.l0, a.l1, a.l2, a.l3) == limbs_value(b.l0, b.l1, b.l2, b.l3),
            {
            }
        }
    }

    /// The element with value `v`.
    pub fn from_u64(v: u64) -> (r: Fq)
        ensures r.val() == v,
    {
        Fq { l0: v, l1: 0, l2: 0, l3: 0 }
    }

    /// Whether this is the additive identity.
    pub fn is_zero(&self) -> (r: bool)
        ensures r == (self.val() == 0),
    {
        self.l0 == 0 && self.l1 == 0 && self.l2 == 0 && self.l3 == 0
    }

    /// The 32-byte little-endian layout of the canonical value.
    pub closed spec fn spec_bytes(self) -> Seq<u8> {
        limbs_le_bytes(self.l0, self.l1, self.l2, self.l3)
    }

    /// The byte layout has 32 bytes and the element's value.
    pub proof fn lemma_spec_bytes(self)
        ensures
            self.spec_bytes().len() == 32,
            bytes_value(self.spec_bytes()) == self.val(),
    {
        lemma_limbs_value(self.l0, self.l1, self.l2, self.l3);
    }
}

impl Fr {
    /// The 32-byte little-endian layout of the canonical value.
    pub closed spec fn spec_bytes(self) -> Seq<u8> {
        limbs_le_bytes(self.l0, self.l1, self.l2, self.l3)
    }

    /// The byte layout has 32 bytes and the element's value.
    pub proof fn lemma_spec_bytes(self)
        ensures
            self.spec_bytes().len() == 32,
            bytes_value(self.spec_bytes()) == self.val(),
    {
        lemma_limbs_value(self.l0, self.l1, self.l2, self.l3);
    }
}

/// The 32 little-endian bytes of the canonical value of `f`.
pub fn fq_to_bytes(f: Fq) -> (r: [u8; 32])
    ensures
        r@ == f.spec_bytes(),
        bytes_value(r@) == f.val(),
        bytes_value(r@) < fq_modulus(),
{
    proof {
        use_type_invariant(f);
        lemma_limbs_value(f.l0, f.l1, f.l2, f.l3);
    }
    limbs_to_bytes(f.l0, f.l1, f.l2, f.l3)
}

/// The element whose canonical little-endian bytes are `bytes`.
pub fn fq_from_bytes(bytes: [u8; 32]) -> (r: Fq)
    requires
        bytes_value(bytes@) < fq_modulus(),
    ensures
        r.val() == bytes_value(bytes@),
        r.spec_bytes() == bytes@,
{
    let (l0, l1, l2, l3) = bytes_to_limbs(&bytes);
    proof {
        lemma_limbs_value(l0, l1, l2, l3);
    }
    Fq { l0, l1, l2, l3 }
}

/// Calls `<ark_bn254::Fq as FromStr>::from_str`, which reads a signed decimal
/// integer and reduces it modulo the field order.
#[verifier::external_body]
pub(crate) fn fq_from_str(s: &str) -> (r: Option<Fq>)
    ensures
        r is Some <==> parse_field_decimal(s@, fq_modulus()) is Some,
        r matches Some(f) ==> f.val() == parse_field_decimal(s@, fq_modulus())->0,
{
    match <ark_bn254::Fq as std::str::FromStr>::from_str(s) {
        Ok(f) => {
            let l = f.into_bigint().0;
            Some(Fq { l0: l[0], l1: l[1], l2: l[2], l3: l[3] })
        },
        Err(()) => None,
    }
}

/// Calls `<ark_bn254::Fq as Display>::fmt` (through `to_string`): the decimal
/// form of the canonical value.
#[verifier::external_body]
pub(crate) fn fq_to_string(a: &Fq) -> (r: String)
    ensures r@ == decimal(a.val()),
{
    let x = ark_bn254::Fq::from_bigint(ark_ff::BigInt([a.l0, a.l1, a.l2, a.l3])).unwrap();
    x.to_string()
}

/// The byte layout determines the element: reading back the bytes written
/// for an element gives that element.
pub proof fn lemma_fr_bytes_injective(f: Fr, g: Fr)
    ensures
        f.spec_bytes() == g.spec_bytes() ==> f == g,
{
    f.lemma_spec_bytes();
    g.lemma_spec_bytes();
    f.lemma_val_injective(g);
}

/// The byte layout determines the element: reading back the bytes written
/// for an element gives that element.
pub proof fn lemma_fq_bytes_injective(f: Fq, g: Fq)
    ensures
        f.spec_bytes() == g.spec_bytes() ==> f == g,
{
    f.lemma_spec_bytes();
    g.lemma_spec_bytes();
    f.lemma_val_injective(g);
}

/// The digit character of `d` is a digit with code `48 + d`.
proof fn lemma_digit_char(d: nat)
    requires
        d < 10,
    ensures
        digit_char(d) as nat == 48 + d,
        digit_char(d) != '_',
        is_digit(digit_char(d)),
{
    let b: u8 = (48 + d) as u8;
    assert(b as nat == 48 + d);
    assert(b as char as nat == b as nat);
}

/// The decimal text of `n` is a nonempty run of digits whose value is `n`.
proof fn lemma_decimal_digits(n: nat)
    ensures
        decimal(n).len() > 0,
        forall|i: int| 0 <= i < decimal(n).len() ==> #[trigger] is_digit(decimal(n)[i]),
        digits_value(decimal(n)) == n,
    decreases n,
{
    if n < 10 {
        let s = decimal(n);
        lemma_digit_char(n);
        assert(s.drop_last() =~= Seq::<char>::empty());
        assert(digits_value(s) == 10 * digits_value(s.drop_last()) + (s.last() as nat - 48) as nat);
    } else {
        lemma_decimal_digits(n / 10);
        lemma_digit_char(n % 10);
        let s = decimal(n);
        assert(s.drop_last() =~= decimal(n / 10));
        assert(digits_value(s) == 10 * digits_value(s.drop_last()) + (s.last() as nat - 48) as nat);
        assert forall|i: int| 0 <= i < s.len() implies #[trigger] is_digit(s[i]) by {
            if i < s.len() - 1 {
                assert(s[i] == decimal(n / 10)[i]);
            }
        }
    }
}

/// The decimal text of `n` reads back as `n`.
pub proof fn lemma_parse_decimal(n: nat)
    ensures
        parse_decimal(decimal(n)) == Some(n as int),
        parse_unsigned_decimal(decimal(n)) == Some(n),
{
    lemma_decimal_digits(n);
    let s = decimal(n);
    assert(is_digit(s[0]));
    assert forall|i: int| 0 <= i < s.len() implies #[trigger] is_digit_or_underscore(s[i]) by {
        assert(is_digit(s[i]));
    }
}

/// Reading the decimal text of an element's value gives the element's value.
pub proof fn lemma_parse_field_decimal(n: nat, m: nat)
    requires
        n < m,
    ensures
        parse_field_decimal(decimal(n), m) == Some(n),
{
    lemma_parse_decimal(n);
    vstd::arithmetic::div_mod::lemma_small_mod(n, m);
}

/// An element is the element built from its value.
pub proof fn lemma_fr_from_own_val(f: Fr)
    requires
        f.val() < fr_modulus(),
    ensures
        Fr::from_val(f.val()) == f,
{
    Fr::lemma_from_val(f.val());
    vstd::arithmetic::div_mod::lemma_small_mod(f.val(), fr_modulus());
    Fr::from_val(f.val()).lemma_val_injective(f);
}

} // verus!
