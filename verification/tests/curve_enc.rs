use ark_ec::AffineRepr;
use websnark_rs::curve::{
    g1_from_bytes, g1_to_bytes, g1_to_string, g2_from_bytes, g2_to_bytes, g2_to_string, parse_f2, parse_g1,
    FqParseError, G1Affine, G2Affine, G1, G2,
};
use websnark_rs::field::{FieldElement, Fq};

fn g1_generator() -> G1Affine {
    let p = ark_bn254::G1Affine::generator();
    parse_g1(&[p.x.to_string(), p.y.to_string(), "1".to_string()]).unwrap()
}

fn g2_generator() -> G2Affine {
    let p = ark_bn254::G2Affine::generator();
    parse_f2(&[
        [p.x.c0.to_string(), p.x.c1.to_string()],
        [p.y.c0.to_string(), p.y.c1.to_string()],
        ["1".to_string(), "0".to_string()],
    ])
    .unwrap()
}

#[test]
fn g1_json_roundtrip() {
    let point = g1_generator();
    let text = g1_to_string(point);
    assert_eq!(text[0], "1");
    assert_eq!(text[1], "2");
    assert_eq!(text[2], "1");
    let back = parse_g1(&text).unwrap();
    assert_eq!(back, point);
}

#[test]
fn g1_json_zero_roundtrip() {
    let text = g1_to_string(G1Affine::zero());
    assert_eq!(text, ["0".to_string(), "0".to_string(), "0".to_string()]);
    let back = parse_g1(&text).unwrap();
    assert!(back.is_zero());
}

#[test]
fn g1_postcard_roundtrip() {
    let point = g1_generator();
    let bytes = g1_to_bytes(point);
    assert_eq!(bytes.len(), 64);
    assert_eq!(bytes[0], 1);
    assert_eq!(bytes[32], 2);
    let back = g1_from_bytes(&bytes).unwrap();
    assert_eq!(back, point);
}

#[test]
fn g1_postcard_zero_roundtrip() {
    let bytes = g1_to_bytes(G1Affine::zero());
    assert!(bytes.iter().all(|&b| b == 0));
    let back = g1_from_bytes(&bytes).unwrap();
    assert!(back.is_zero());
}

#[test]
fn g2_json_roundtrip() {
    let point = g2_generator();
    let back = parse_f2(&g2_to_string(point)).unwrap();
    assert_eq!(back, point);
}

#[test]
fn g2_json_zero_roundtrip() {
    let text = g2_to_string(G2Affine::zero());
    for pair in &text {
        assert_eq!(pair[0], "0");
        assert_eq!(pair[1], "0");
    }
    let back = parse_f2(&text).unwrap();
    assert!(back.is_zero());
}

#[test]
fn g2_postcard_roundtrip() {
    let point = g2_generator();
    let bytes = g2_to_bytes(point);
    assert_eq!(bytes.len(), 128);
    let back = g2_from_bytes(&bytes).unwrap();
    assert_eq!(back, point);
}

#[test]
fn g2_postcard_zero_roundtrip() {
    let back = g2_from_bytes(&g2_to_bytes(G2Affine::zero())).unwrap();
    assert!(back.is_zero());
}

#[test]
fn wrong_lengths_are_rejected() {
    assert!(matches!(g1_from_bytes(&[0u8; 63]), Err(FqParseError::InvalidLength)));
    assert!(matches!(g2_from_bytes(&[0u8; 64]), Err(FqParseError::InvalidLength)));
}

#[test]
fn invalid_decimal_is_rejected() {
    let text = ["x".to_string(), "2".to_string(), "1".to_string()];
    assert!(matches!(parse_g1(&text), Err(FqParseError::InvalidField)));
    // A zero `z` makes the point infinity whatever the coordinates say.
    let text = ["x".to_string(), "y".to_string(), "0".to_string()];
    assert!(parse_g1(&text).unwrap().is_zero());
}

#[test]
fn coordinates_roundtrip() {
    let p = g1_generator();
    let c = G1::to_coords(p);
    assert_eq!(c[2], Fq::from_u64(1));
    assert_eq!(G1::from_coords(c), p);
    assert!(G1::from_coords(G1::to_coords(G1Affine::zero())).is_zero());
    let q = g2_generator();
    assert_eq!(G2::from_coords(G2::to_coords(q)), q);
    let z = G2::to_coords(G2Affine::zero());
    assert!(z.iter().all(|pair| pair[0] == Fq::from_u64(0) && pair[1] == Fq::from_u64(0)));
    assert!(G2::from_coords(z).is_zero());
}

#[test]
fn xy_of_finite_and_infinite_points() {
    let p = g1_generator();
    assert_eq!(p.xy(), Some((Fq::from_u64(1), FieldElement::fq_from_text("2").unwrap())));
    assert_eq!(G1Affine::zero().xy(), None);
}
