//! Groth16 keys and proofs in the CircomV1 (snarkjs) layout.

use vstd::prelude::*;
use crate::curve::{G1Affine, G2Affine};
use crate::field::{Fr, fr_modulus, fr_from_str, parse_field_decimal};
use crate::curve::FqParseError;

verus! {

/// CircomV1-compatible proving key.
#[derive(Debug, PartialEq, Eq)]
pub struct ProvingKey {
    pub a: Vec<G1Affine>,
    pub b_g1: Vec<G1Affine>,
    pub b_g2: Vec<G2Affine>,
    pub c: Vec<G1Affine>,
    pub n_vars: usize,
    pub n_public: usize,
    pub vk_alpha_g1: G1Affine,
    pub vk_beta_g1: G1Affine,
    pub vk_beta_g2: G2Affine,
    pub vk_delta_g1: G1Affine,
    pub vk_delta_g2: G2Affine,
    pub h_exps: Vec<G1Affine>,
    pub domain_size: usize,
    /// For each variable, the coefficients of its polynomial A as
    /// (position, coefficient) pairs with distinct positions.
    pub pols_a: Vec<Vec<(usize, Fr)>>,
    /// For each variable, the coefficients of its polynomial B as
    /// (position, coefficient) pairs with distinct positions.
    pub pols_b: Vec<Vec<(usize, Fr)>>,
}

/// CircomV1-compatible verifying key.
#[derive(Debug, PartialEq, Eq)]
pub struct VerifyingKey {
    pub alpha: G1Affine,
    pub beta: G2Affine,
    pub gamma: G2Affine,
    pub delta: G2Affine,
    pub ic: Vec<G1Affine>,
}

/// CircomV1-compatible zk-SNARK proof.
#[derive(Clone, Copy, Debug, PartialEq, Eq, Structural)]
pub struct Proof {
    pub a: G1Affine,
    pub b: G2Affine,
    pub c: G1Affine,
}

/// Errors of proof generation.
#[derive(Debug)]
pub enum ProofError {
    InvalidWitness(Fr),
    InvalidCoefficient,
    InvalidDomain,
    InvalidCoset,
}

/// Whether `r` is what parsing the decimal coefficients `v` gives: each
/// coefficient read as an integer reduced modulo the field order, or
/// `InvalidField` if one of them is not a decimal integer.
pub open spec fn pols_parsed(v: Seq<Seq<(usize, Seq<char>)>>, r: Result<Vec<Vec<(usize, Fr)>>, FqParseError>) -> bool {
    if forall|i: int, k: int| 0 <= i < v.len() && 0 <= k < v[i].len()
        ==> (#[trigger] parse_field_decimal(v[i][k].1, fr_modulus())) is Some {
        &&& r is Ok
        &&& r->Ok_0@.len() == v.len()
        &&& forall|i: int| 0 <= i < v.len() ==> (#[trigger] r->Ok_0@[i])@.len() == v[i].len()
        &&& forall|i: int, k: int| 0 <= i < v.len() && 0 <= k < v[i].len() ==> {
            &&& (#[trigger] r->Ok_0@[i]@[k]).0 == v[i][k].0
            &&& r->Ok_0@[i]@[k].1.val() == parse_field_decimal(v[i][k].1, fr_modulus())->0
        }
    } else {
        r matches Err(FqParseError::InvalidField)
    }
}

/// Whether in each row no position occurs twice, as in a map from positions
/// to coefficients.
pub open spec fn positions_distinct(rows: Seq<Seq<usize>>) -> bool {
    forall|i: int, j: int, k: int| 0 <= i < rows.len() && 0 <= j < k < rows[i].len()
        ==> #[trigger] rows[i][j] != #[trigger] rows[i][k]
}

/// The positions of the coefficients of polynomials.
pub open spec fn fr_positions(rows: Seq<Vec<(usize, Fr)>>) -> Seq<Seq<usize>> {
    rows.map_values(|row: Vec<(usize, Fr)>| row@.map_values(|e: (usize, Fr)| e.0))
}

/// The positions of the coefficients of polynomials written as texts.
pub open spec fn text_positions(rows: Seq<Seq<(usize, Seq<char>)>>) -> Seq<Seq<usize>> {
    rows.map_values(|row: Seq<(usize, Seq<char>)>| row.map_values(|e: (usize, Seq<char>)| e.0))
}

/// The texts of the coefficients of polynomials.
pub open spec fn pols_text(v: Seq<Vec<(usize, String)>>) -> Seq<Seq<(usize, Seq<char>)>> {
    v.map_values(|row: Vec<(usize, String)>| row@.map_values(|e: (usize, String)| (e.0, e.1@)))
}

/// Parses the decimal coefficients of the polynomials of a proving key.
pub fn parse_pols(value: &Vec<Vec<(usize, String)>>) -> (r: Result<Vec<Vec<(usize, Fr)>>, FqParseError>)
    ensures
        pols_parsed(pols_text(value@), r),
        r matches Ok(p) ==> fr_positions(p@) == text_positions(pols_text(value@)),
        r matches Ok(p) ==> (positions_distinct(fr_positions(p@)) <==> positions_distinct(text_positions(pols_text(value@)))),
{
    let ghost t = pols_text(value@);
    let mut out: Vec<Vec<(usize, Fr)>> = Vec::new();
    let mut i: usize = 0;
    while i < value.len()
        invariant
            i <= value@.len(),
            t == pols_text(value@),
            t.len() == value@.len(),
            out@.len() == i,
            forall|a: int, k: int| 0 <= a < i && 0 <= k < t[a].len()
                ==> (#[trigger] parse_field_decimal(t[a][k].1, fr_modulus())) is Some,
            forall|a: int| 0 <= a < i ==> (#[trigger] out@[a])@.len() == t[a].len(),
            forall|a: int, k: int| 0 <= a < i && 0 <= k < t[a].len() ==> {
                &&& (#[trigger] out@[a]@[k]).0 == t[a][k].0
                &&& out@[a]@[k].1.val() == parse_field_decimal(t[a][k].1, fr_modulus())->0
            },
        decreases value@.len() - i,
    {
        let row = &value[i];
        let ghost tr = t[i as int];
        assert(tr == row@.map_values(|e: (usize, String)| (e.0, e.1@)));
        let mut parsed: Vec<(usize, Fr)> = Vec::new();
        let mut k: usize = 0;
        while k < row.len()
            invariant
                k <= row@.len(),
                i < value@.len(),
                t == pols_text(value@),
                t.len() == value@.len(),
                t[i as int] == tr,
                tr == row@.map_values(|e: (usize, String)| (e.0, e.1@)),
                tr.len() == row@.len(),
                parsed@.len() == k,
                forall|q: int| 0 <= q < k ==> (#[trigger] parse_field_decimal(tr[q].1, fr_modulus())) is Some,
                forall|q: int| 0 <= q < k ==> {
                    &&& (#[trigger] parsed@[q]).0 == tr[q].0
                    &&& parsed@[q].1.val() == parse_field_decimal(tr[q].1, fr_modulus())->0
                },
            decreases row@.len() - k,
        {
            let (key, text) = &row[k];
            assert(tr[k as int] == (*key, text@));
            match fr_from_str(text.as_str()) {
                Some(f) => {
                    parsed.push((*key, f));
                },
                None => {
                    proof {
                        assert(parse_field_decimal(t[i as int][k as int].1, fr_modulus()) is None);
                        assert(!(forall|a: int, q: int| 0 <= a < t.len() && 0 <= q < t[a].len()
                            ==> (#[trigger] parse_field_decimal(t[a][q].1, fr_modulus())) is Some));
                    }
                    return Err(FqParseError::InvalidField);
                },
            }
            k = k + 1;
        }
        let ghost before = out@;
        out.push(parsed);
        proof {
            assert forall|a: int| 0 <= a < i + 1 implies (#[trigger] out@[a])@.len() == t[a].len() by {
                if a < i {
                    assert(out@[a] == before[a]);
                }
            }
            assert forall|a: int, q: int| 0 <= a < i + 1 && 0 <= q < t[a].len() implies {
                &&& (#[trigger] out@[a]@[q]).0 == t[a][q].0
                &&& out@[a]@[q].1.val() == parse_field_decimal(t[a][q].1, fr_modulus())->0
            } by {
                if a < i {
                    assert(out@[a] == before[a]);
                }
            }
        }
        i = i + 1;
    }
    proof {
        let fp = fr_positions(out@);
        let tp = text_positions(t);
        assert forall|a: int| 0 <= a < t.len() implies #[trigger] fp[a] == tp[a] by {
            assert(fp[a] =~= tp[a]);
        }
        assert(fp =~= tp);
    }
    Ok(out)
}

} // verus!
