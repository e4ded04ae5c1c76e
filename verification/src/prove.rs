//! Groth16 proof generation over BN254, with the FFT domain of snarkjs.

use vstd::prelude::*;
use ark_ec::{CurveGroup, VariableBaseMSM};
use ark_poly::{EvaluationDomain, Radix2EvaluationDomain};
use ark_serialize::{CanonicalDeserialize, CanonicalSerialize};
use vstd::arithmetic::power2::pow2;
use crate::ark_codec::{ark_fr_vec, ark_fr_vec_valid, ark_g1_vec_valid, ark_g2_vec_valid, ark_g1_valid, ark_g2_valid, item,
    ark_encode_fr_vec, ark_decode_fr_vec, ark_g1_vec, ark_g2_vec, ark_g1, ark_g2, g1_of, g2_of, ark_encode_g1,
    ark_encode_g2, ark_encode_g1_vec, ark_encode_g2_vec, ark_decode_g1, ark_decode_g2, lemma_g1_decodes_unique,
    lemma_g2_decodes_unique};
use crate::curve::G1Affine;
use crate::witness::Witness;
use crate::field::{Fr, fr_modulus, limbs_value, fr_from_le_bytes_mod_order, bytes_value, fr_add, fr_mul, fr_inverse, fr_inverse_spec, field_to_bytes,
    lemma_fr_from_own_val};
use crate::keys::{ProvingKey, Proof, ProofError, positions_distinct, fr_positions};

verus! {

/// Whether `b` is the encoding of one scalar: 32 canonical bytes.
pub open spec fn fr_bytes_valid(b: Seq<u8>) -> bool {
    b.len() == 32 && bytes_value(b) < fr_modulus()
}

/// What `g1_msm` gives for its encoded arguments.
pub uninterp spec fn g1_msm_result(bases: Seq<u8>, scalars: Seq<u8>) -> Seq<u8>;

/// What `g2_msm` gives for its encoded arguments.
pub uninterp spec fn g2_msm_result(bases: Seq<u8>, scalars: Seq<u8>) -> Seq<u8>;

/// What `g1_add` gives for its encoded arguments.
pub uninterp spec fn g1_add_result(a: Seq<u8>, b: Seq<u8>) -> Seq<u8>;

/// What `g1_sub` gives for its encoded arguments.
pub uninterp spec fn g1_sub_result(a: Seq<u8>, b: Seq<u8>) -> Seq<u8>;

/// What `g1_mul` gives for its encoded arguments.
pub uninterp spec fn g1_mul_result(a: Seq<u8>, s: Seq<u8>) -> Seq<u8>;

/// What `g2_add` gives for its encoded arguments.
pub uninterp spec fn g2_add_result(a: Seq<u8>, b: Seq<u8>) -> Seq<u8>;

/// What `g2_mul` gives for its encoded arguments.
pub uninterp spec fn g2_mul_result(a: Seq<u8>, s: Seq<u8>) -> Seq<u8>;

/// What `fr_ifft` gives for its encoded arguments.
pub uninterp spec fn fr_ifft_result(evals: Seq<u8>, size: nat, gen: Seq<u8>, gen_inv: Seq<u8>) -> Seq<u8>;

/// What `fr_coset_fft` gives for its encoded arguments.
pub uninterp spec fn fr_coset_fft_result(coeffs: Seq<u8>, size: nat, gen: Seq<u8>, gen_inv: Seq<u8>, offset: Seq<u8>) -> Seq<u8>;

/// Calls `VariableBaseMSM::msm_unchecked` for G1 (over the shorter of the
/// two vectors) and `CurveGroup::into_affine`, reading and writing the
/// uncompressed encodings of `ark_serialize`.
#[verifier::external_body]
fn g1_msm(bases: &[u8], scalars: &[u8]) -> (r: Vec<u8>)
    requires
        exists|n: nat| ark_g1_vec_valid(bases@, n),
        exists|n: nat| ark_fr_vec_valid(scalars@, n),
    ensures
        r@ == g1_msm_result(bases@, scalars@),
        ark_g1_valid(r@),
{
    let b = Vec::<ark_bn254::G1Affine>::deserialize_uncompressed_unchecked(bases).unwrap();
    let s = Vec::<ark_bn254::Fr>::deserialize_uncompressed_unchecked(scalars).unwrap();
    let mut out = Vec::new();
    ark_bn254::G1Projective::msm_unchecked(&b, &s).into_affine().serialize_uncompressed(&mut out).unwrap();
    out
}

/// Calls `VariableBaseMSM::msm_unchecked` for G2 and `into_affine`, on the
/// uncompressed encodings.
#[verifier::external_body]
fn g2_msm(bases: &[u8], scalars: &[u8]) -> (r: Vec<u8>)
    requires
        exists|n: nat| ark_g2_vec_valid(bases@, n),
        exists|n: nat| ark_fr_vec_valid(scalars@, n),
    ensures
        r@ == g2_msm_result(bases@, scalars@),
        ark_g2_valid(r@),
{
    let b = Vec::<ark_bn254::G2Affine>::deserialize_uncompressed_unchecked(bases).unwrap();
    let s = Vec::<ark_bn254::Fr>::deserialize_uncompressed_unchecked(scalars).unwrap();
    let mut out = Vec::new();
    ark_bn254::G2Projective::msm_unchecked(&b, &s).into_affine().serialize_uncompressed(&mut out).unwrap();
    out
}

/// Calls the G1 group addition and `into_affine`, on the uncompressed
/// encodings.
#[verifier::external_body]
fn g1_add(a: &[u8], b: &[u8]) -> (r: Vec<u8>)
    requires
        ark_g1_valid(a@),
        ark_g1_valid(b@),
    ensures
        r@ == g1_add_result(a@, b@),
        ark_g1_valid(r@),
{
    let x = ark_bn254::G1Affine::deserialize_uncompressed_unchecked(a).unwrap();
    let y = ark_bn254::G1Affine::deserialize_uncompressed_unchecked(b).unwrap();
    let mut out = Vec::new();
    (x + y).into_affine().serialize_uncompressed(&mut out).unwrap();
    out
}

/// Calls the G1 group subtraction and `into_affine`, on the uncompressed
/// encodings.
#[verifier::external_body]
fn g1_sub(a: &[u8], b: &[u8]) -> (r: Vec<u8>)
    requires
        ark_g1_valid(a@),
        ark_g1_valid(b@),
    ensures
        r@ == g1_sub_result(a@, b@),
        ark_g1_valid(r@),
{
    let x = ark_bn254::G1Affine::deserialize_uncompressed_unchecked(a).unwrap();
    let y = ark_bn254::G1Affine::deserialize_uncompressed_unchecked(b).unwrap();
    let mut out = Vec::new();
    (x - y).into_affine().serialize_uncompressed(&mut out).unwrap();
    out
}

/// Calls the G1 scalar multiplication and `into_affine`, on the
/// uncompressed encodings.
#[verifier::external_body]
fn g1_mul(a: &[u8], s: &[u8]) -> (r: Vec<u8>)
    requires
        ark_g1_valid(a@),
        fr_bytes_valid(s@),
    ensures
        r@ == g1_mul_result(a@, s@),
        ark_g1_valid(r@),
{
    let x = ark_bn254::G1Affine::deserialize_uncompressed_unchecked(a).unwrap();
    let k = ark_bn254::Fr::deserialize_uncompressed_unchecked(s).unwrap();
    let mut out = Vec::new();
    (x * k).into_affine().serialize_uncompressed(&mut out).unwrap();
    out
}

/// Calls the G2 group addition and `into_affine`, on the uncompressed
/// encodings.
#[verifier::external_body]
fn g2_add(a: &[u8], b: &[u8]) -> (r: Vec<u8>)
    requires
        ark_g2_valid(a@),
        ark_g2_valid(b@),
    ensures
        r@ == g2_add_result(a@, b@),
        ark_g2_valid(r@),
{
    let x = ark_bn254::G2Affine::deserialize_uncompressed_unchecked(a).unwrap();
    let y = ark_bn254::G2Affine::deserialize_uncompressed_unchecked(b).unwrap();
    let mut out = Vec::new();
    (x + y).into_affine().serialize_uncompressed(&mut out).unwrap();
    out
}

/// Calls the G2 scalar multiplication and `into_affine`, on the
/// uncompressed encodings.
#[verifier::external_body]
fn g2_mul(a: &[u8], s: &[u8]) -> (r: Vec<u8>)
    requires
        ark_g2_valid(a@),
        fr_bytes_valid(s@),
    ensures
        r@ == g2_mul_result(a@, s@),
        ark_g2_valid(r@),
{
    let x = ark_bn254::G2Affine::deserialize_uncompressed_unchecked(a).unwrap();
    let k = ark_bn254::Fr::deserialize_uncompressed_unchecked(s).unwrap();
    let mut out = Vec::new();
    (x * k).into_affine().serialize_uncompressed(&mut out).unwrap();
    out
}

/// Calls `EvaluationDomain::ifft_in_place` on a `Radix2EvaluationDomain` of
/// `size` points whose generator is `gen` (the vector is cut or padded with
/// zeros to `size` first), on the uncompressed encodings.
#[verifier::external_body]
fn fr_ifft(evals: &[u8], size: usize, gen: &[u8], gen_inv: &[u8]) -> (r: Vec<u8>)
    requires
        exists|n: nat| ark_fr_vec_valid(evals@, n),
        exists|k: nat| k <= 28 && size == pow2(k),
        fr_bytes_valid(gen@),
        fr_bytes_valid(gen_inv@),
    ensures
        r@ == fr_ifft_result(evals@, size as nat, gen@, gen_inv@),
        ark_fr_vec_valid(r@, size as nat),
{
    let mut d = Radix2EvaluationDomain::<ark_bn254::Fr>::new(size).unwrap();
    d.group_gen = ark_bn254::Fr::deserialize_uncompressed_unchecked(gen).unwrap();
    d.group_gen_inv = ark_bn254::Fr::deserialize_uncompressed_unchecked(gen_inv).unwrap();
    let mut v = Vec::<ark_bn254::Fr>::deserialize_uncompressed_unchecked(evals).unwrap();
    d.ifft_in_place(&mut v);
    let mut out = Vec::new();
    v.serialize_uncompressed(&mut out).unwrap();
    out
}

/// Calls `EvaluationDomain::get_coset` with `offset` and then
/// `fft_in_place` on a `Radix2EvaluationDomain` of `size` points whose
/// generator is `gen`, on the uncompressed encodings.
#[verifier::external_body]
fn fr_coset_fft(coeffs: &[u8], size: usize, gen: &[u8], gen_inv: &[u8], offset: &[u8]) -> (r: Vec<u8>)
    requires
        ark_fr_vec_valid(coeffs@, size as nat),
        exists|k: nat| k <= 28 && size == pow2(k),
        fr_bytes_valid(gen@),
        fr_bytes_valid(gen_inv@),
        fr_bytes_valid(offset@),
        bytes_value(offset@) != 0,
    ensures
        r@ == fr_coset_fft_result(coeffs@, size as nat, gen@, gen_inv@, offset@),
        ark_fr_vec_valid(r@, size as nat),
{
    let mut d = Radix2EvaluationDomain::<ark_bn254::Fr>::new(size).unwrap();
    d.group_gen = ark_bn254::Fr::deserialize_uncompressed_unchecked(gen).unwrap();
    d.group_gen_inv = ark_bn254::Fr::deserialize_uncompressed_unchecked(gen_inv).unwrap();
    let c = d.get_coset(ark_bn254::Fr::deserialize_uncompressed_unchecked(offset).unwrap()).unwrap();
    let mut v = Vec::<ark_bn254::Fr>::deserialize_uncompressed_unchecked(coeffs).unwrap();
    c.fft_in_place(&mut v);
    let mut out = Vec::new();
    v.serialize_uncompressed(&mut out).unwrap();
    out
}

/// The scalar-field configuration of snarkjs: the BN254 scalar field with
/// generator 7, whose 2^28-th root of unity orders the evaluation domains of
/// snarkjs proving keys.
pub struct FrSnarkjsConfig;

impl FrSnarkjsConfig {
    /// `7^((r - 1) / 2^28)` modulo the field order `r`.
    pub open spec fn two_adic_root_spec() -> nat {
        1748695177688661943023146337482803886740723238769601073607632802312037301404nat
    }

    /// The primitive 2^28-th root of unity of the snarkjs domains.
    pub fn two_adic_root_of_unity() -> (r: Fr)
        ensures
            r.val() == Self::two_adic_root_spec(),
    {
        Fr::from_limbs(0xd34f1ed960c37c9c, 0x3215cf6dd39329c8, 0x98865ea93dd31f74, 0x3ddb9f5166d18b7)
    }
}

/// `x` squared `j` times in the field.
pub open spec fn squarings(x: nat, j: nat) -> nat
    decreases j,
{
    if j == 0 {
        x
    } else {
        let y = squarings(x, (j - 1) as nat);
        (y * y) % fr_modulus()
    }
}

/// The generator of the snarkjs domain of `2^k` points.
pub open spec fn snarkjs_gen(k: nat) -> nat {
    squarings(FrSnarkjsConfig::two_adic_root_spec(), (28 - k) as nat)
}

/// The least `j >= k`, up to 28, with `2^j >= m`: the logarithm of the size
/// of the smallest domain that holds `m` coefficients.
pub open spec fn domain_log(m: nat, k: nat) -> Option<nat>
    decreases 29 - k,
{
    if k > 28 {
        None
    } else if pow2(k) >= m {
        Some(k)
    } else {
        domain_log(m, k + 1)
    }
}

/// The generator of the snarkjs domain of `2^k` points.
fn domain_gen(k: u32) -> (r: Fr)
    requires
        k <= 28,
    ensures
        r.val() == snarkjs_gen(k as nat),
        r.val() < fr_modulus(),
{
    let mut g = FrSnarkjsConfig::two_adic_root_of_unity();
    let mut j: u32 = 0;
    while j < 28 - k
        invariant
            k <= 28,
            j <= 28 - k,
            g.val() == squarings(FrSnarkjsConfig::two_adic_root_spec(), j as nat),
            g.val() < fr_modulus(),
        decreases 28 - k - j,
    {
        g = fr_mul(&g, &g);
        j = j + 1;
    }
    g
}

/// The size and logarithm of the smallest domain that holds `m` coefficients.
fn fft_domain(m: usize) -> (r: Option<(usize, u32)>)
    ensures
        match domain_log(m as nat, 0) {
            Some(k) => r == Some((pow2(k) as usize, k as u32)) && k <= 28,
            None => r is None,
        },
        match r {
            Some((s, k)) => s >= m && k <= 28 && s == pow2(k as nat) && s <= 0x1000_0000,
            None => true,
        },
{
    let mut k: u32 = 0;
    let mut size: usize = 1;
    proof {
        vstd::arithmetic::power2::lemma2_to64();
    }
    while k <= 28
        invariant
            k <= 29,
            size == pow2(k as nat),
            size <= 0x2000_0000,
            domain_log(m as nat, 0) == domain_log(m as nat, k as nat),
        decreases 29 - k,
    {
        if size >= m {
            proof {
                vstd::arithmetic::power2::lemma2_to64();
                if k < 28 {
                    vstd::arithmetic::power2::lemma_pow2_strictly_increases(k as nat, 28);
                }
            }
            return Some((size, k));
        }
        proof {
            vstd::arithmetic::power2::lemma_pow2_unfold((k + 1) as nat);
            if k < 28 {
                vstd::arithmetic::power2::lemma_pow2_strictly_increases((k + 1) as nat, 29);
            }
            vstd::arithmetic::power2::lemma2_to64();
        }
        size = size * 2;
        k = k + 1;
    }
    None
}

/// Adds `wi` times each coefficient of `row` at its position, in order.
pub open spec fn add_row(acc: Seq<nat>, row: Seq<(usize, Fr)>, wi: nat) -> Seq<nat>
    decreases row.len(),
{
    if row.len() == 0 {
        acc
    } else {
        let prev = add_row(acc, row.drop_last(), wi);
        let j = row.last().0 as int;
        prev.update(j, (prev[j] + (wi * row.last().1.val()) % fr_modulus()) % fr_modulus())
    }
}

/// The evaluations of a polynomial of the key on the domain: for each of
/// the first `n` variables, its witness value times its coefficients.
pub open spec fn pol_evals(pols: Seq<Vec<(usize, Fr)>>, w: Seq<nat>, n: nat, m: nat) -> Seq<nat>
    decreases n,
{
    if n == 0 {
        Seq::new(m, |k: int| 0nat)
    } else {
        add_row(pol_evals(pols, w, (n - 1) as nat, m), pols[n - 1]@, w[n - 1])
    }
}

/// Whether the positions of the first `n` rows are below `m`.
pub open spec fn rows_in_range(pols: Seq<Vec<(usize, Fr)>>, n: nat, m: nat) -> bool {
    forall|i: int, k: int| 0 <= i < n && 0 <= k < pols[i]@.len() ==> (#[trigger] pols[i]@[k]).0 < m
}

/// The values of field elements.
pub open spec fn vals(v: Seq<Fr>) -> Seq<nat> {
    v.map_values(|f: Fr| f.val())
}

/// Whether every element of `v` is below the field order.
pub open spec fn all_reduced(v: Seq<nat>) -> bool {
    forall|k: int| 0 <= k < v.len() ==> #[trigger] v[k] < fr_modulus()
}

/// Adding a row keeps the length and the values reduced.
proof fn lemma_add_row(acc: Seq<nat>, row: Seq<(usize, Fr)>, wi: nat)
    requires
        forall|k: int| 0 <= k < row.len() ==> (#[trigger] row[k]).0 < acc.len(),
    ensures
        add_row(acc, row, wi).len() == acc.len(),
        all_reduced(acc) ==> all_reduced(add_row(acc, row, wi)),
    decreases row.len(),
{
    if row.len() > 0 {
        assert forall|k: int| 0 <= k < row.drop_last().len() implies (#[trigger] row.drop_last()[k]).0 < acc.len() by {
            assert(row.drop_last()[k] == row[k]);
        }
        lemma_add_row(acc, row.drop_last(), wi);
        assert(row[row.len() - 1] == row.last());
    }
}

/// The evaluations of the first `n` rows of `pols` at the witness `w`.
fn add_rows(pols: &Vec<Vec<(usize, Fr)>>, w: &[Fr], n: usize, m: usize) -> (r: Vec<Fr>)
    requires
        n <= pols@.len(),
        n <= w@.len(),
        rows_in_range(pols@, n as nat, m as nat),
    ensures
        vals(r@) == pol_evals(pols@, vals(w@), n as nat, m as nat),
        all_reduced(vals(r@)),
        r@.len() == m,
{
    let mut acc: Vec<Fr> = Vec::new();
    let mut k: usize = 0;
    while k < m
        invariant
            k <= m,
            acc@.len() == k,
            forall|t: int| 0 <= t < k ==> #[trigger] acc@[t].val() == 0,
        decreases m - k,
    {
        acc.push(Fr::zero());
        k = k + 1;
    }
    assert(vals(acc@) =~= pol_evals(pols@, vals(w@), 0, m as nat));
    let mut i: usize = 0;
    while i < n
        invariant
            i <= n,
            n <= pols@.len(),
            n <= w@.len(),
            rows_in_range(pols@, n as nat, m as nat),
            acc@.len() == m,
            vals(acc@) == pol_evals(pols@, vals(w@), i as nat, m as nat),
            all_reduced(vals(acc@)),
        decreases n - i,
    {
        let row = &pols[i];
        let wi = w[i];
        let ghost start = vals(acc@);
        let mut t: usize = 0;
        assert(row@.subrange(0, 0) =~= Seq::<(usize, Fr)>::empty());
        while t < row.len()
            invariant
                i < n,
                n <= pols@.len(),
                n <= w@.len(),
                *row == pols@[i as int],
                wi == w@[i as int],
                rows_in_range(pols@, n as nat, m as nat),
                t <= row@.len(),
                start == pol_evals(pols@, vals(w@), i as nat, m as nat),
                start.len() == m,
                acc@.len() == m,
                vals(acc@) == add_row(start, row@.subrange(0, t as int), wi.val()),
                all_reduced(vals(acc@)),
            decreases row@.len() - t,
        {
            let (j, c) = row[t];
            assert(row@[t as int] == pols@[i as int]@[t as int]);
            assert(j < m);
            proof {
                let sub = row@.subrange(0, t as int);
                assert forall|q: int| 0 <= q < sub.len() implies (#[trigger] sub[q]).0 < start.len() by {
                    assert(sub[q] == pols@[i as int]@[q]);
                }
                lemma_add_row(start, sub, wi.val());
            }
            let prod = fr_mul(&wi, &c);
            let cur = acc[j];
            let next = fr_add(&cur, &prod);
            let ghost before = vals(acc@);
            acc.set(j, next);
            proof {
                let sub = row@.subrange(0, t + 1);
                assert(sub.drop_last() =~= row@.subrange(0, t as int));
                assert(sub.last() == (j, c));
                assert(vals(acc@) =~= before.update(j as int, next.val()));
                assert(before[j as int] == cur.val());
            }
            t = t + 1;
        }
        assert(row@.subrange(0, row@.len() as int) =~= row@);
        assert(vals(w@)[i as int] == wi.val());
        i = i + 1;
    }
    acc
}

/// The encoding of one scalar of value `x`.
pub open spec fn fr_bytes_of(x: nat) -> Seq<u8> {
    Fr::from_val(x).spec_bytes()
}

/// The encoding of a vector of scalars with values `v`.
pub open spec fn vals_bytes(v: Seq<nat>) -> Seq<u8> {
    ark_fr_vec(v.map_values(|x: nat| Fr::from_val(x)))
}

/// The values of the first `n` scalars of a vector encoding.
pub open spec fn decoded_vals(b: Seq<u8>, n: nat) -> Seq<nat> {
    Seq::new(n, |i: int| bytes_value(item(b, i, 32)))
}

/// The evaluations on the coset with offset `offset` of the polynomial whose
/// evaluations on the domain of `size` points with generator `g` are `v`.
pub open spec fn coset_evals(v: Seq<nat>, size: nat, g: nat, offset: nat) -> Seq<nat> {
    let gb = fr_bytes_of(g);
    let gib = fr_bytes_of(fr_inverse_spec(g));
    decoded_vals(fr_coset_fft_result(fr_ifft_result(vals_bytes(v), size, gb, gib), size, gb, gib, fr_bytes_of(offset)), size)
}

/// How many variables take part in the polynomials: those that both the key
/// and the witness have.
pub open spec fn n_used(pk: ProvingKey, w_len: nat) -> nat {
    if w_len < pk.n_vars { w_len } else { pk.n_vars as nat }
}

/// Whether the polynomials of the key cover the `n` variables used and stay
/// within the domain.
pub open spec fn pols_ok(pk: ProvingKey, n: nat) -> bool {
    &&& n <= pk.pols_a@.len()
    &&& n <= pk.pols_b@.len()
    &&& rows_in_range(pk.pols_a@, n, pk.domain_size as nat)
    &&& rows_in_range(pk.pols_b@, n, pk.domain_size as nat)
}

/// The coefficients of `h` for the key `pk` and the witness `w`: the
/// polynomials A and B are evaluated on the domain of the key and on its
/// coset by the generator of the doubled domain, their products interleaved,
/// interpolated on the doubled domain, and the upper half kept.
pub open spec fn h_spec(pk: ProvingKey, w: Seq<Fr>) -> Result<Seq<nat>, ProofError> {
    let m = pk.domain_size as nat;
    let n = n_used(pk, w.len());
    let pa = pol_evals(pk.pols_a@, vals(w), n, m);
    let pb = pol_evals(pk.pols_b@, vals(w), n, m);
    match domain_log(m, 0) {
        None => Err(ProofError::InvalidDomain),
        Some(k) => {
            let g = snarkjs_gen(k);
            if g == 0 {
                Err(ProofError::InvalidDomain)
            } else {
                match domain_log(2 * m, 0) {
                    None => Err(ProofError::InvalidDomain),
                    Some(k2) => {
                        let g2 = snarkjs_gen(k2);
                        if g2 == 0 {
                            Err(ProofError::InvalidDomain)
                        } else {
                            let size2 = pow2(k2);
                            let ca = coset_evals(pa, pow2(k), g, g2);
                            let cb = coset_evals(pb, pow2(k), g, g2);
                            let ab = Seq::new(2 * m, |i: int| if i % 2 == 0 {
                                (pa[i / 2] * pb[i / 2]) % fr_modulus()
                            } else {
                                (ca[i / 2] * cb[i / 2]) % fr_modulus()
                            });
                            let hb = fr_ifft_result(vals_bytes(ab), size2, fr_bytes_of(g2), fr_bytes_of(fr_inverse_spec(g2)));
                            Ok(decoded_vals(hb, size2).subrange(m as int, size2 as int))
                        }
                    },
                }
            }
        },
    }
}

/// Reduced elements are encoded as their values.
proof fn lemma_vals_bytes(v: Seq<Fr>)
    requires
        all_reduced(vals(v)),
    ensures
        ark_fr_vec(v) == vals_bytes(vals(v)),
{
    let mv = vals(v).map_values(|x: nat| Fr::from_val(x));
    assert forall|k: int| 0 <= k < v.len() implies #[trigger] mv[k] == v[k] by {
        assert(vals(v)[k] < fr_modulus());
        lemma_fr_from_own_val(v[k]);
    }
    assert(mv =~= v);
}

/// The encoding of reduced field elements.
fn encode_vals(v: &Vec<Fr>) -> (r: Vec<u8>)
    requires
        all_reduced(vals(v@)),
    ensures
        r@ == vals_bytes(vals(v@)),
        ark_fr_vec_valid(r@, v@.len()),
{
    proof {
        lemma_vals_bytes(v@);
    }
    ark_encode_fr_vec(v.as_slice())
}

/// The encoding of one scalar.
fn encode_scalar(f: Fr) -> (r: Vec<u8>)
    ensures
        r@ == fr_bytes_of(f.val()),
        fr_bytes_valid(r@),
{
    let b = field_to_bytes(f);
    let mut out: Vec<u8> = Vec::new();
    let mut i: usize = 0;
    while i < 32
        invariant
            i <= 32,
            b@.len() == 32,
            out@ == b@.subrange(0, i as int),
        decreases 32 - i,
    {
        out.push(b[i]);
        assert(b@.subrange(0, i + 1) =~= b@.subrange(0, i as int).push(b@[i as int]));
        i = i + 1;
    }
    proof {
        assert(b@.subrange(0, 32) =~= b@);
        lemma_fr_from_own_val(f);
        f.lemma_spec_bytes();
    }
    out
}

/// The `n` elements of a vector encoding.
fn decode_vals(b: &Vec<u8>, n: usize) -> (r: Vec<Fr>)
    requires
        ark_fr_vec_valid(b@, n as nat),
    ensures
        vals(r@) == decoded_vals(b@, n as nat),
        all_reduced(vals(r@)),
        r@.len() == n,
{
    let r = ark_decode_fr_vec(b.as_slice(), n);
    proof {
        assert forall|i: int| 0 <= i < n implies #[trigger] vals(r@)[i] == decoded_vals(b@, n as nat)[i] by {
            r@[i].lemma_spec_bytes();
        }
        assert(vals(r@) =~= decoded_vals(b@, n as nat));
    }
    r
}

/// The evaluations of `v` moved from the domain of `size` points with
/// generator `g` to its coset with offset `offset`.
fn to_coset(v: &Vec<Fr>, size: usize, g: &Vec<u8>, gi: &Vec<u8>, offset: &Vec<u8>) -> (r: Vec<Fr>)
    requires
        all_reduced(vals(v@)),
        exists|k: nat| k <= 28 && size == pow2(k),
        fr_bytes_valid(g@),
        fr_bytes_valid(gi@),
        fr_bytes_valid(offset@),
        bytes_value(offset@) != 0,
    ensures
        vals(r@) == decoded_vals(fr_coset_fft_result(fr_ifft_result(vals_bytes(vals(v@)), size as nat, g@, gi@),
            size as nat, g@, gi@, offset@), size as nat),
        r@.len() == size,
        all_reduced(vals(r@)),
{
    let enc = encode_vals(v);
    let coeffs = fr_ifft(enc.as_slice(), size, g.as_slice(), gi.as_slice());
    let evals = fr_coset_fft(coeffs.as_slice(), size, g.as_slice(), gi.as_slice(), offset.as_slice());
    let r = decode_vals(&evals, size);
    assert(vals(r@).len() == size);
    r
}

/// Computes the coefficients of `h` for the key `pk` and the witness `w`
/// (see [`h_spec`]).
pub fn calculate_h(pk: &ProvingKey, w: &[Fr]) -> (r: Result<Vec<Fr>, ProofError>)
    requires
        pols_ok(*pk, n_used(*pk, w@.len())),
    ensures
        match r {
            Ok(h) => h_spec(*pk, w@) == Ok::<Seq<nat>, ProofError>(vals(h@)) && all_reduced(vals(h@)),
            Err(e) => h_spec(*pk, w@) is Err && e is InvalidDomain,
        },
{
    let m = pk.domain_size;
    let n = if w.len() < pk.n_vars { w.len() } else { pk.n_vars };
    let pol_a = add_rows(&pk.pols_a, w, n, m);
    let pol_b = add_rows(&pk.pols_b, w, n, m);
    let ghost pa = vals(pol_a@);
    let ghost pb = vals(pol_b@);

    let (size, k) = match fft_domain(m) {
        Some(d) => d,
        None => {
            return Err(ProofError::InvalidDomain);
        },
    };
    let g = domain_gen(k);
    let gi = match fr_inverse(&g) {
        Some(x) => x,
        None => {
            return Err(ProofError::InvalidDomain);
        },
    };
    proof {
        vstd::arithmetic::power2::lemma2_to64();
        if k < 28 {
            vstd::arithmetic::power2::lemma_pow2_strictly_increases(k as nat, 28);
        }
    }
    let m2 = 2 * m;
    let (size2, k2) = match fft_domain(m2) {
        Some(d) => d,
        None => {
            return Err(ProofError::InvalidDomain);
        },
    };
    let g2 = domain_gen(k2);
    let g2i = match fr_inverse(&g2) {
        Some(x) => x,
        None => {
            return Err(ProofError::InvalidDomain);
        },
    };

    let gb = encode_scalar(g);
    let gib = encode_scalar(gi);
    let g2b = encode_scalar(g2);
    let g2ib = encode_scalar(g2i);
    proof {
        lemma_fr_from_own_val(g2);
        g2.lemma_spec_bytes();
    }
    let ca = to_coset(&pol_a, size, &gb, &gib, &g2b);
    let cb = to_coset(&pol_b, size, &gb, &gib, &g2b);
    let ghost cav = vals(ca@);
    let ghost cbv = vals(cb@);
    proof {
        if k < 28 {
            vstd::arithmetic::power2::lemma_pow2_strictly_increases(k as nat, 28);
        }
    }

    let mut ab: Vec<Fr> = Vec::new();
    let mut i: usize = 0;
    while i < m
        invariant
            i <= m,
            m <= size,
            pol_a@.len() == m,
            pol_b@.len() == m,
            ca@.len() == size,
            cb@.len() == size,
            pa == vals(pol_a@),
            pb == vals(pol_b@),
            cav == vals(ca@),
            cbv == vals(cb@),
            ab@.len() == 2 * i,
            all_reduced(vals(ab@)),
            forall|q: int| 0 <= q < 2 * i ==> #[trigger] ab@[q].val() == if q % 2 == 0 {
                (pa[q / 2] * pb[q / 2]) % fr_modulus()
            } else {
                (cav[q / 2] * cbv[q / 2]) % fr_modulus()
            },
        decreases m - i,
    {
        let x = fr_mul(&pol_a[i], &pol_b[i]);
        let y = fr_mul(&ca[i], &cb[i]);
        ab.push(x);
        ab.push(y);
        proof {
            assert((2 * i) / 2 == i && (2 * i) % 2 == 0);
            assert((2 * i + 1) / 2 == i && (2 * i + 1) % 2 == 1);
        }
        i = i + 1;
    }
    let ghost abv = Seq::new(2 * m as nat, |q: int| if q % 2 == 0 {
        (pa[q / 2] * pb[q / 2]) % fr_modulus()
    } else {
        (cav[q / 2] * cbv[q / 2]) % fr_modulus()
    });
    assert(vals(ab@) =~= abv);
    let abb = encode_vals(&ab);
    let hb = fr_ifft(abb.as_slice(), size2, g2b.as_slice(), g2ib.as_slice());
    let all = decode_vals(&hb, size2);
    proof {
        vstd::arithmetic::power2::lemma2_to64();
    }
    let mut h: Vec<Fr> = Vec::new();
    let mut j: usize = m;
    while j < size2
        invariant
            m <= j <= size2,
            all@.len() == size2,
            h@.len() == j - m,
            forall|q: int| 0 <= q < j - m ==> #[trigger] h@[q] == all@[q + m],
        decreases size2 - j,
    {
        h.push(all[j]);
        j = j + 1;
    }
    proof {
        assert(vals(h@) =~= vals(all@).subrange(m as int, size2 as int));
    }
    Ok(h)
}

/// The proof for the key `pk`, the witness `w`, the random scalars `r` and
/// `s` and the coefficients `hv` of `h`:
/// `A = alpha + sum w_i A_i + r delta`, `B = beta + sum w_i B_i + s delta`
/// (in G2, and in G1 for `C`), and
/// `C = sum w_i C_i + sum h_j H_j + s A + r B1 - r s delta`, the sums over
/// `C` running over the private variables.
pub open spec fn proof_spec(pk: ProvingKey, w: Seq<Fr>, r: nat, s: nat, hv: Seq<nat>) -> Proof {
    let wb = ark_fr_vec(w);
    let start = pk.n_public + 1;
    let rb = fr_bytes_of(r);
    let sb = fr_bytes_of(s);
    let a0 = g1_msm_result(ark_g1_vec(pk.a@), wb);
    let b1_0 = g1_msm_result(ark_g1_vec(pk.b_g1@), wb);
    let b2_0 = g2_msm_result(ark_g2_vec(pk.b_g2@), wb);
    let c0 = g1_msm_result(ark_g1_vec(pk.c@.subrange(start, pk.n_vars as int)), ark_fr_vec(w.subrange(start, pk.n_vars as int)));
    let ch = g1_msm_result(ark_g1_vec(pk.h_exps@), vals_bytes(hv));
    let a = g1_add_result(g1_add_result(a0, ark_g1(pk.vk_alpha_g1)), g1_mul_result(ark_g1(pk.vk_delta_g1), rb));
    let b2 = g2_add_result(g2_add_result(b2_0, ark_g2(pk.vk_beta_g2)), g2_mul_result(ark_g2(pk.vk_delta_g2), sb));
    let b1 = g1_add_result(g1_add_result(b1_0, ark_g1(pk.vk_beta_g1)), g1_mul_result(ark_g1(pk.vk_delta_g1), sb));
    let c1 = g1_add_result(g1_add_result(c0, ch), g1_mul_result(a, sb));
    let c2 = g1_add_result(c1, g1_mul_result(b1, rb));
    let c = g1_sub_result(c2, g1_mul_result(ark_g1(pk.vk_delta_g1), fr_bytes_of((r * s) % fr_modulus())));
    Proof { a: g1_of(a), b: g2_of(b2), c: g1_of(c) }
}

/// Whether `pk` can be used with a witness of `w_len` elements: the public
/// inputs come before the variables of the key, which the witness covers,
/// and the polynomials cover the variables used, each naming a position at
/// most once.
pub open spec fn key_fits(pk: ProvingKey, w_len: nat) -> bool {
    &&& positions_distinct(fr_positions(pk.pols_a@))
    &&& positions_distinct(fr_positions(pk.pols_b@))
    &&& pk.n_public + 1 <= pk.n_vars
    &&& pk.n_vars <= pk.c@.len()
    &&& pk.n_vars <= w_len
    &&& pols_ok(pk, n_used(pk, w_len))
}

/// Generates a Groth16 proof for the key `pk`, the witness `w` and the
/// random scalars `r` and `s`; gives the proof and the public signals.
pub fn generate_proof(pk: ProvingKey, w: Witness, r: Fr, s: Fr) -> (res: Result<(Proof, Vec<Fr>), ProofError>)
    requires
        key_fits(pk, w.elems().len()),
    ensures
        match h_spec(pk, w.elems()) {
            Err(_) => res matches Err(e) && e is InvalidDomain,
            Ok(hv) => res matches Ok((pf, pubs)) && pf == proof_spec(pk, w.elems(), r.val(), s.val(), hv)
                && pubs@ == w.elems().subrange(1, pk.n_public + 1),
        },
{
    let w = w.values();
    let start = pk.n_public + 1;
    let wb = ark_encode_fr_vec(w.as_slice());
    let ab = ark_encode_g1_vec(pk.a.as_slice());
    let proof_a = g1_msm(ab.as_slice(), wb.as_slice());
    let b1b = ark_encode_g1_vec(pk.b_g1.as_slice());
    let proof_b_g1 = g1_msm(b1b.as_slice(), wb.as_slice());
    let b2b = ark_encode_g2_vec(pk.b_g2.as_slice());
    let proof_b_g2 = g2_msm(b2b.as_slice(), wb.as_slice());

    let cs = slice_g1(&pk.c, start, pk.n_vars);
    let ws = slice_fr(w, start, pk.n_vars);
    let cb = ark_encode_g1_vec(cs.as_slice());
    let wsb = ark_encode_fr_vec(ws.as_slice());
    let proof_c = g1_msm(cb.as_slice(), wsb.as_slice());

    let h = calculate_h(&pk, w.as_slice())?;
    let hb = encode_vals(&h);
    let heb = ark_encode_g1_vec(pk.h_exps.as_slice());
    let proof_c_h = g1_msm(heb.as_slice(), hb.as_slice());

    let rb = encode_scalar(r);
    let sb = encode_scalar(s);
    let rs = fr_mul(&r, &s);
    let rsb = encode_scalar(rs);
    let alpha = ark_encode_g1(&pk.vk_alpha_g1);
    let beta1 = ark_encode_g1(&pk.vk_beta_g1);
    let delta1 = ark_encode_g1(&pk.vk_delta_g1);
    let beta2 = ark_encode_g2(&pk.vk_beta_g2);
    let delta2 = ark_encode_g2(&pk.vk_delta_g2);

    let proof_a = g1_add(proof_a.as_slice(), alpha.as_slice());
    let dr = g1_mul(delta1.as_slice(), rb.as_slice());
    let proof_a = g1_add(proof_a.as_slice(), dr.as_slice());

    let proof_b_g2 = g2_add(proof_b_g2.as_slice(), beta2.as_slice());
    let ds2 = g2_mul(delta2.as_slice(), sb.as_slice());
    let proof_b_g2 = g2_add(proof_b_g2.as_slice(), ds2.as_slice());

    let proof_b_g1 = g1_add(proof_b_g1.as_slice(), beta1.as_slice());
    let ds1 = g1_mul(delta1.as_slice(), sb.as_slice());
    let proof_b_g1 = g1_add(proof_b_g1.as_slice(), ds1.as_slice());

    let proof_c = g1_add(proof_c.as_slice(), proof_c_h.as_slice());
    let as_ = g1_mul(proof_a.as_slice(), sb.as_slice());
    let proof_c = g1_add(proof_c.as_slice(), as_.as_slice());
    let br = g1_mul(proof_b_g1.as_slice(), rb.as_slice());
    let proof_c = g1_add(proof_c.as_slice(), br.as_slice());
    let drs = g1_mul(delta1.as_slice(), rsb.as_slice());
    let proof_c = g1_sub(proof_c.as_slice(), drs.as_slice());

    let a = ark_decode_g1(proof_a.as_slice());
    let b = ark_decode_g2(proof_b_g2.as_slice());
    let c = ark_decode_g1(proof_c.as_slice());
    proof {
        lemma_g1_decodes_unique(proof_a@, a);
        lemma_g2_decodes_unique(proof_b_g2@, b);
        lemma_g1_decodes_unique(proof_c@, c);
    }
    let pub_signals = slice_fr(w, 1, start);
    Ok((Proof { a, b, c }, pub_signals))
}

/// The elements of `v` from `lo` up to `hi`.
fn slice_fr(v: &Vec<Fr>, lo: usize, hi: usize) -> (r: Vec<Fr>)
    requires
        lo <= hi <= v@.len(),
    ensures
        r@ == v@.subrange(lo as int, hi as int),
{
    let mut out: Vec<Fr> = Vec::new();
    let mut i: usize = lo;
    while i < hi
        invariant
            lo <= i <= hi <= v@.len(),
            out@ == v@.subrange(lo as int, i as int),
        decreases hi - i,
    {
        out.push(v[i]);
        assert(v@.subrange(lo as int, i + 1) =~= v@.subrange(lo as int, i as int).push(v@[i as int]));
        i = i + 1;
    }
    out
}

/// The points of `v` from `lo` up to `hi`.
fn slice_g1(v: &Vec<G1Affine>, lo: usize, hi: usize) -> (r: Vec<G1Affine>)
    requires
        lo <= hi <= v@.len(),
    ensures
        r@ == v@.subrange(lo as int, hi as int),
{
    let mut out: Vec<G1Affine> = Vec::new();
    let mut i: usize = lo;
    while i < hi
        invariant
            lo <= i <= hi <= v@.len(),
            out@ == v@.subrange(lo as int, i as int),
        decreases hi - i,
    {
        out.push(v[i]);
        assert(v@.subrange(lo as int, i + 1) =~= v@.subrange(lo as int, i as int).push(v@[i as int]));
        i = i + 1;
    }
    out
}

#[verifier::external_type_specification]
#[verifier::external_body]
pub struct ExStdRng(rand::rngs::StdRng);

/// Calls `RngCore::fill_bytes` on 32 bytes; nothing is known of them.
#[verifier::external_body]
fn random_bytes(rng: &mut rand::rngs::StdRng) -> (r: [u8; 32]) {
    let mut b = [0u8; 32];
    rand::RngCore::fill_bytes(rng, &mut b);
    b
}

/// Generates a Groth16 proof with the scalars `r` and `s` read from 32
/// little-endian bytes each, reduced modulo the field order.
pub fn generate_proof_from_bytes(pk: ProvingKey, w: Witness, r_bytes: &[u8; 32], s_bytes: &[u8; 32])
    -> (res: Result<(Proof, Vec<Fr>), ProofError>)
    requires
        key_fits(pk, w.elems().len()),
    ensures
        match h_spec(pk, w.elems()) {
            Err(_) => res matches Err(e) && e is InvalidDomain,
            Ok(hv) => res matches Ok((pf, pubs)) && pubs@ == w.elems().subrange(1, pk.n_public + 1)
                && pf == proof_spec(pk, w.elems(), bytes_value(r_bytes@) % fr_modulus(),
                    bytes_value(s_bytes@) % fr_modulus(), hv),
        },
{
    let r = fr_from_le_bytes_mod_order(r_bytes);
    let s = fr_from_le_bytes_mod_order(s_bytes);
    generate_proof(pk, w, r, s)
}

/// Generates a Groth16 proof with random scalars `r` and `s`, each read from
/// 32 random bytes reduced modulo the field order.
pub fn generate_random_proof(pk: ProvingKey, w: Witness, rng: &mut rand::rngs::StdRng) -> (res: Result<(Proof, Vec<Fr>), ProofError>)
    requires
        key_fits(pk, w.elems().len()),
    ensures
        match h_spec(pk, w.elems()) {
            Err(_) => res matches Err(e) && e is InvalidDomain,
            Ok(hv) => res matches Ok((pf, pubs)) && pubs@ == w.elems().subrange(1, pk.n_public + 1)
                && exists|rb: Seq<u8>, sb: Seq<u8>| rb.len() == 32 && sb.len() == 32
                    && pf == proof_spec(pk, w.elems(), bytes_value(rb) % fr_modulus(), bytes_value(sb) % fr_modulus(), hv),
        },
{
    let rb = random_bytes(rng);
    let sb = random_bytes(rng);
    let res = generate_proof_from_bytes(pk, w, &rb, &sb);
    proof {
        match h_spec(pk, w.elems()) {
            Ok(hv) => {
                assert(rb@.len() == 32 && sb@.len() == 32);
                assert(res->Ok_0.0 == proof_spec(pk, w.elems(), bytes_value(rb@) % fr_modulus(), bytes_value(sb@) % fr_modulus(), hv));
            },
            Err(_) => {},
        }
    }
    res
}

/// In a proof, `A` depends on `r` but not on `s` nor on `h`, and `B` depends
/// on `s` but not on `r` nor on `h`.
pub proof fn lemma_proof_parts_use_their_scalars(pk: ProvingKey, w: Seq<Fr>, r1: nat, r2: nat, s1: nat, s2: nat, h1: Seq<nat>, h2: Seq<nat>)
    ensures
        proof_spec(pk, w, r1, s1, h1).a == proof_spec(pk, w, r1, s2, h2).a,
        proof_spec(pk, w, r1, s1, h1).b == proof_spec(pk, w, r2, s1, h2).b,
{
}

} // verus!
