use ark_ec::{AffineRepr, CurveGroup};
use ark_ff::{Field, PrimeField};
use num_bigint::BigUint;
use std::str::FromStr;
use websnark_rs::curve::{g1_to_string, g2_to_string, parse_f2, parse_g1, G1Affine, G2Affine};
use websnark_rs::field::{FieldElement, Fr};
use websnark_rs::keys::{Proof, ProvingKey};
use websnark_rs::prove::{calculate_h, generate_proof, generate_proof_from_bytes, generate_random_proof, FrSnarkjsConfig};
use websnark_rs::witness::Witness;

type AFr = ark_bn254::Fr;

fn to_ark_fr(f: &Fr) -> AFr {
    AFr::from_str(&FieldElement::fr_to_text(f)).unwrap()
}

fn from_ark_fr(f: AFr) -> Fr {
    FieldElement::fr_from_text(&f.to_string()).unwrap()
}

fn to_ark_g1(p: &G1Affine) -> ark_bn254::G1Affine {
    let t = g1_to_string(*p);
    if t[2] == "0" {
        return ark_bn254::G1Affine::zero();
    }
    ark_bn254::G1Affine::new_unchecked(
        ark_bn254::Fq::from_str(&t[0]).unwrap(),
        ark_bn254::Fq::from_str(&t[1]).unwrap(),
    )
}

fn from_ark_g1(p: ark_bn254::G1Affine) -> G1Affine {
    match p.xy() {
        None => G1Affine::zero(),
        Some((x, y)) => parse_g1(&[x.to_string(), y.to_string(), "1".to_string()]).unwrap(),
    }
}

fn to_ark_g2(p: &G2Affine) -> ark_bn254::G2Affine {
    let t = g2_to_string(*p);
    if t[2][0] == "0" && t[2][1] == "0" {
        return ark_bn254::G2Affine::zero();
    }
    let q = |s: &String| ark_bn254::Fq::from_str(s).unwrap();
    ark_bn254::G2Affine::new_unchecked(
        ark_bn254::Fq2::new(q(&t[0][0]), q(&t[0][1])),
        ark_bn254::Fq2::new(q(&t[1][0]), q(&t[1][1])),
    )
}

fn from_ark_g2(p: ark_bn254::G2Affine) -> G2Affine {
    match p.xy() {
        None => G2Affine::zero(),
        Some((x, y)) => parse_f2(&[
            [x.c0.to_string(), x.c1.to_string()],
            [y.c0.to_string(), y.c1.to_string()],
            ["1".to_string(), "0".to_string()],
        ])
        .unwrap(),
    }
}

fn g1(k: u64) -> G1Affine {
    from_ark_g1((ark_bn254::G1Affine::generator() * AFr::from(k)).into_affine())
}

fn g2(k: u64) -> G2Affine {
    from_ark_g2((ark_bn254::G2Affine::generator() * AFr::from(k)).into_affine())
}

fn fr(n: u64) -> Fr {
    Fr::from_u64(n)
}

/// The snarkjs generator of the domain of `2^k` points, computed with the
/// curve library.
fn snarkjs_generator(k: u32) -> AFr {
    let p = BigUint::from_str("21888242871839275222246405745257275088548364400416034343698204186575808495617").unwrap();
    let t: BigUint = (p - 1u32) >> 28u32;
    let omega = AFr::from(7u64).pow(t.to_u64_digits());
    omega.pow([1u64 << (28 - k)])
}

/// Coefficients of the polynomial taking the values `evals` on the domain
/// generated by `gen`.
fn interpolate(evals: &[AFr], gen: AFr) -> Vec<AFr> {
    let n = evals.len();
    let inv_n = AFr::from(n as u64).inverse().unwrap();
    let gen_inv = gen.inverse().unwrap();
    (0..n)
        .map(|j| {
            let mut acc = AFr::from(0u64);
            for (k, e) in evals.iter().enumerate() {
                acc += *e * gen_inv.pow([(j * k) as u64]);
            }
            acc * inv_n
        })
        .collect()
}

fn key(domain_size: usize) -> ProvingKey {
    ProvingKey {
        a: vec![g1(2), g1(3), g1(5)],
        b_g1: vec![g1(7), g1(11), g1(13)],
        b_g2: vec![g2(17), g2(19), g2(23)],
        c: vec![g1(29), g1(31), g1(37)],
        n_vars: 3,
        n_public: 1,
        vk_alpha_g1: g1(41),
        vk_beta_g1: g1(43),
        vk_beta_g2: g2(47),
        vk_delta_g1: g1(53),
        vk_delta_g2: g2(59),
        h_exps: vec![g1(61), g1(67), g1(71), g1(73)],
        domain_size,
        pols_a: vec![vec![(0, fr(1))], vec![(1, fr(1))], vec![]],
        pols_b: vec![vec![(0, fr(2))], vec![], vec![(1, fr(1))]],
    }
}

#[test]
fn snarkjs_root_of_unity_is_seven_based() {
    let w = FrSnarkjsConfig::two_adic_root_of_unity();
    assert_eq!(to_ark_fr(&w), snarkjs_generator(28));
}

#[test]
fn calculate_h_of_two_point_domain() {
    let pk = key(2);
    let w = vec![fr(1), fr(3), fr(5)];
    let h = calculate_h(&pk, &w).unwrap();
    // A = [1, 3] and B = [2, 5] on {1, -1}: A(x) = 2 - x, B(x) = 7/2 - 3/2 x,
    // and the upper half of A·B is [3/2, 0].
    let three_halves = AFr::from(3u64) * AFr::from(2u64).inverse().unwrap();
    assert_eq!(h.len(), 2);
    assert_eq!(to_ark_fr(&h[0]), three_halves);
    assert_eq!(h[1], fr(0));
}

#[test]
fn calculate_h_matches_polynomial_product() {
    let mut pk = key(4);
    pk.pols_a = vec![vec![(0, fr(1)), (3, fr(4))], vec![(1, fr(1)), (2, fr(9))], vec![(0, fr(2))]];
    pk.pols_b = vec![vec![(2, fr(2))], vec![(3, fr(1))], vec![(1, fr(1)), (0, fr(6))]];
    let w = vec![fr(1), fr(3), fr(5)];
    let h = calculate_h(&pk, &w).unwrap();

    let wa: Vec<AFr> = w.iter().map(to_ark_fr).collect();
    let mut a = vec![AFr::from(0u64); 4];
    let mut b = vec![AFr::from(0u64); 4];
    for (i, row) in pk.pols_a.iter().enumerate() {
        for (j, c) in row {
            a[*j] += wa[i] * to_ark_fr(c);
        }
    }
    for (i, row) in pk.pols_b.iter().enumerate() {
        for (j, c) in row {
            b[*j] += wa[i] * to_ark_fr(c);
        }
    }
    let gen = snarkjs_generator(2);
    let ca = interpolate(&a, gen);
    let cb = interpolate(&b, gen);
    let mut prod = vec![AFr::from(0u64); 8];
    for i in 0..4 {
        for j in 0..4 {
            prod[i + j] += ca[i] * cb[j];
        }
    }
    let got: Vec<AFr> = h.iter().map(to_ark_fr).collect();
    assert_eq!(got, prod[4..8].to_vec());
}

#[test]
fn generate_proof_matches_groth16_formulas() {
    let pk = key(2);
    let w = vec![fr(1), fr(3), fr(5)];
    let r = fr(77);
    let s = fr(88);
    let h = calculate_h(&pk, &w).unwrap();
    let (proof, pub_signals) = generate_proof(key(2), Witness::new(w.clone()), r, s).unwrap();
    assert_eq!(pub_signals, vec![fr(3)]);

    let wa: Vec<AFr> = w.iter().map(to_ark_fr).collect();
    let (ra, sa) = (to_ark_fr(&r), to_ark_fr(&s));
    let msm1 = |ps: &[G1Affine], xs: &[AFr]| {
        let mut acc = ark_bn254::G1Projective::from(ark_bn254::G1Affine::zero());
        for (p, x) in ps.iter().zip(xs) {
            acc += to_ark_g1(p) * *x;
        }
        acc
    };
    let mut b2 = ark_bn254::G2Projective::from(ark_bn254::G2Affine::zero());
    for (p, x) in pk.b_g2.iter().zip(&wa) {
        b2 += to_ark_g2(p) * *x;
    }
    let a = msm1(&pk.a, &wa) + to_ark_g1(&pk.vk_alpha_g1) + to_ark_g1(&pk.vk_delta_g1) * ra;
    let b2 = b2 + to_ark_g2(&pk.vk_beta_g2) + to_ark_g2(&pk.vk_delta_g2) * sa;
    let b1 = msm1(&pk.b_g1, &wa) + to_ark_g1(&pk.vk_beta_g1) + to_ark_g1(&pk.vk_delta_g1) * sa;
    let ha: Vec<AFr> = h.iter().map(to_ark_fr).collect();
    let c = msm1(&pk.c[2..3], &wa[2..3]) + msm1(&pk.h_exps, &ha) + a * sa + b1 * ra
        - to_ark_g1(&pk.vk_delta_g1) * (ra * sa);

    let expected = Proof {
        a: from_ark_g1(a.into_affine()),
        b: from_ark_g2(b2.into_affine()),
        c: from_ark_g1(c.into_affine()),
    };
    assert_eq!(proof, expected);
}

#[test]
fn random_proof_is_consistent_with_its_public_signals() {
    let mut rng = <rand::rngs::StdRng as rand::SeedableRng>::seed_from_u64(7);
    let w = vec![fr(1), fr(3), fr(5)];
    let (proof, pub_signals) = generate_random_proof(key(2), Witness::new(w), &mut rng).unwrap();
    assert_eq!(pub_signals, vec![fr(3)]);
    assert!(!proof.a.infinity);
    let _ = from_ark_fr(AFr::from(1u64));
}

#[test]
fn zero_points_are_handled() {
    let mut pk = key(2);
    pk.vk_alpha_g1 = G1Affine::zero();
    pk.a = vec![G1Affine::zero(), G1Affine::zero(), G1Affine::zero()];
    let w = vec![fr(1), fr(3), fr(5)];
    let (proof, _) = generate_proof(pk, Witness::new(w), fr(0), fr(0)).unwrap();
    assert!(proof.a.infinity);
}

#[test]
fn parse_pols_reads_decimal_coefficients() {
    let v = vec![vec![(0usize, "5".to_string()), (3, "-1".to_string())], vec![]];
    let p = websnark_rs::keys::parse_pols(&v).unwrap();
    assert_eq!(p.len(), 2);
    assert_eq!(p[0][0], (0, fr(5)));
    assert_eq!(p[0][1].1, FieldElement::fr_from_text("-1").unwrap());
    assert!(p[1].is_empty());
    assert!(websnark_rs::keys::parse_pols(&vec![vec![(1usize, "z".to_string())]]).is_err());
}

#[test]
fn proof_from_bytes_reduces_the_bytes() {
    let w = vec![fr(1), fr(3), fr(5)];
    let mut rb = [0u8; 32];
    rb[0] = 77;
    let sb = [0xffu8; 32];
    let s = from_ark_fr(<AFr as ark_ff::PrimeField>::from_le_bytes_mod_order(&sb));
    let from_bytes = generate_proof_from_bytes(key(2), Witness::new(w.clone()), &rb, &sb).unwrap();
    let direct = generate_proof(key(2), Witness::new(w), fr(77), s).unwrap();
    assert_eq!(from_bytes, direct);
}

#[test]
fn random_proof_uses_the_first_draw_for_r_and_the_second_for_s() {
    let w = vec![fr(1), fr(3), fr(5)];
    let mut rng = <rand::rngs::StdRng as rand::SeedableRng>::seed_from_u64(11);
    let random = generate_random_proof(key(2), Witness::new(w.clone()), &mut rng).unwrap();
    let mut rng = <rand::rngs::StdRng as rand::SeedableRng>::seed_from_u64(11);
    let mut rb = [0u8; 32];
    let mut sb = [0u8; 32];
    rand::RngCore::fill_bytes(&mut rng, &mut rb);
    rand::RngCore::fill_bytes(&mut rng, &mut sb);
    let from_bytes = generate_proof_from_bytes(key(2), Witness::new(w), &rb, &sb).unwrap();
    assert_eq!(random, from_bytes);
}
