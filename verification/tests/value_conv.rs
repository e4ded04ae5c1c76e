use num_bigint::BigInt;
use websnark_rs::bigint::{bigint_to_fr, fr_to_bigint};
use websnark_rs::field::{field_from_bytes, field_to_bytes, FieldElement, Fr};
use websnark_rs::value::{fr_to_u32, Value, ValueError};

#[test]
fn test_fr_to_bigint() {
    let big = BigInt::parse_bytes(b"123456789012345678901234567890", 10).unwrap();
    let fr = bigint_to_fr(&big);
    let big_back = fr_to_bigint(fr);
    assert_eq!(big, big_back);
}

#[test]
fn value_test_fr_bigint_conversion() {
    let big = BigInt::parse_bytes(b"123456789012345678901234567890", 10).unwrap();
    let fr = bigint_to_fr(&big);
    let big_back = fr_to_bigint(fr);
    assert_eq!(big, big_back);
}

#[test]
fn test_fr_to_u32() {
    let f = Fr::from_u64(42);
    let u32_value = fr_to_u32(f).unwrap();
    assert_eq!(u32_value, 42);

    let f_large = Fr::from_u64(u64::MAX);
    assert!(fr_to_u32(f_large).is_err());
}

#[test]
fn bytes_roundtrip() {
    let fr = Fr::from_u64(u64::MAX);
    let back: Fr = field_from_bytes(field_to_bytes(fr));
    assert_eq!(back, fr);
}

#[test]
fn field_bytes_are_little_endian() {
    let b = field_to_bytes(Fr::from_u64(0x0102));
    assert_eq!(b[0], 0x02);
    assert_eq!(b[1], 0x01);
    assert!(b[2..].iter().all(|&x| x == 0));
}

#[test]
fn fr_to_u32_reads_lowest_limb_only() {
    // 2^64 + 5 has lowest limb 5.
    let f = FieldElement::fr_from_text("18446744073709551621").unwrap();
    assert_eq!(fr_to_u32(f).unwrap(), 5);
    assert!(matches!(fr_to_u32(Fr::from_u64(1 << 32)), Err(ValueError::InvalidNumber(s)) if s == "4294967296"));
}

#[test]
fn bigint_to_fr_of_negative_numbers() {
    let minus_one = bigint_to_fr(&BigInt::from(-1));
    let p_minus_one =
        FieldElement::fr_from_text("21888242871839275222246405745257275088548364400416034343698204186575808495616").unwrap();
    assert_eq!(minus_one, p_minus_one);
    // Beyond i64 the two's-complement bytes are read as unsigned: -2^64 has
    // the 9-byte encoding 00..00 FF, worth 255 * 2^64.
    let big_negative = BigInt::parse_bytes(b"-18446744073709551616", 10).unwrap();
    let expected = FieldElement::fr_from_text("4703919738795935662080").unwrap();
    assert_eq!(bigint_to_fr(&big_negative), expected);
}

#[test]
fn bigint_to_fr_reduces_large_numbers() {
    let p_plus_two = BigInt::parse_bytes(
        b"21888242871839275222246405745257275088548364400416034343698204186575808495619",
        10,
    )
    .unwrap();
    assert_eq!(bigint_to_fr(&p_plus_two), Fr::from_u64(2));
}

#[test]
fn fr_to_bigint_is_nonnegative() {
    let minus_one = bigint_to_fr(&BigInt::from(-1));
    assert_eq!(
        fr_to_bigint(minus_one),
        BigInt::parse_bytes(b"21888242871839275222246405745257275088548364400416034343698204186575808495616", 10)
            .unwrap()
    );
}

#[test]
fn decimal_text_roundtrip() {
    let f = FieldElement::fr_from_text("123456789").unwrap();
    assert_eq!(FieldElement::fr_to_text(&f), "123456789");
    assert_eq!(FieldElement::fr_from_text("-1").unwrap(), bigint_to_fr(&BigInt::from(-1)));
    assert!(FieldElement::fr_from_text("abc").is_none());
}

#[test]
fn value_conversions() {
    assert_eq!(Value::from(true), Value::Fr(Fr::from_u64(1)));
    assert_eq!(Value::from(false), Value::Fr(Fr::from_u64(0)));
    assert_eq!(Value::from(7u32), Value::Fr(Fr::from_u64(7)));
    assert_eq!(Value::from(-1i32), Value::Fr(bigint_to_fr(&BigInt::from(-1))));
    assert_eq!(Value::from_i64(-5), Value::Fr(bigint_to_fr(&BigInt::from(-5))));
    assert_eq!(Value::from(Fr::from_u64(9)).into_fr().unwrap(), Fr::from_u64(9));
    assert!(matches!(Value::Array(vec![]).into_fr(), Err(ValueError::ExpectedNumber)));
    assert!(matches!(Value::Array(vec![]).into_u32(), Err(ValueError::ExpectedNumber)));
    assert!(Value::from(0u64).is_zero().unwrap());
    assert!(!Value::from(3u64).is_zero().unwrap());
}

#[test]
fn value_to_text() {
    let v = Value::Array(vec![Value::from(1u64), Value::Array(vec![Value::from(2u64), Value::from(3u64)])]);
    assert_eq!(v.to_text(), "[1, [2, 3]]");
}

#[test]
fn into_u64_and_into_number() {
    assert_eq!(Value::from(5u64).into_u64().unwrap(), 5);
    let big = FieldElement::fr_from_text("18446744073709551621").unwrap();
    assert_eq!(Value::Fr(big).into_u64().unwrap(), 5);
    assert_eq!(Value::from(9u64).into_number().unwrap(), BigInt::from(9));
    assert!(matches!(Value::Array(vec![]).into_number(), Err(ValueError::ExpectedNumber)));
}

#[test]
fn field_json_roundtrip() {
    let fr = Fr::from_u64(42);
    let text = FieldElement::fr_to_text(&fr);
    assert_eq!(format!("\"{text}\""), "\"42\"");
    let back = FieldElement::fr_from_text(&text).unwrap();
    assert_eq!(back, fr);
}

#[test]
fn field_postcard_roundtrip() {
    let fr = Fr::from_u64(u64::MAX);
    let bytes = field_to_bytes(fr);
    assert_eq!(&bytes[..8], &[0xff; 8]);
    assert!(bytes[8..].iter().all(|&b| b == 0));
    let back = field_from_bytes(bytes);
    assert_eq!(back, fr);
}

#[test]
fn fr_to_u32_error_holds_the_decimal_text() {
    assert!(matches!(fr_to_u32(Fr::from_u64(42)), Ok(42)));
    assert!(matches!(
        fr_to_u32(Fr::from_u64(u64::MAX)),
        Err(ValueError::InvalidNumber(t)) if t == "18446744073709551615"
    ));
    assert!(matches!(
        Value::from_u64(1 << 32).into_u32(),
        Err(ValueError::InvalidNumber(t)) if t == "4294967296"
    ));
}
