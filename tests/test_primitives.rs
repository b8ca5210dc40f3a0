use ordcode::params::{AscendingOrder, DescendingOrder, EncodingParams};
use ordcode::{bytes_esc, primitives, DeBytesReader};

fn f32_asc(v: f32) -> Vec<u8> {
    let mut s = vec![];
    primitives::serialize_f32(&mut s, v.to_bits(), AscendingOrder).unwrap();
    s
}

fn f32_desc(v: f32) -> Vec<u8> {
    let mut s = vec![];
    primitives::serialize_f32(&mut s, v.to_bits(), DescendingOrder).unwrap();
    s
}

fn f64_asc(v: f64) -> Vec<u8> {
    let mut s = vec![];
    primitives::serialize_f64(&mut s, v.to_bits(), AscendingOrder).unwrap();
    s
}

fn f64_desc(v: f64) -> Vec<u8> {
    let mut s = vec![];
    primitives::serialize_f64(&mut s, v.to_bits(), DescendingOrder).unwrap();
    s
}

#[test]
fn test_cmp_f32_asc() {
    assert!(f32_asc(f32::NEG_INFINITY) < f32_asc(f32::MIN));
    assert!(f32_asc(-0.0f32) < f32_asc(-0.0f32 + f32::EPSILON));
    assert!(f32_asc(-0f32) < f32_asc(0f32));
    assert!(f32_asc(0f32) < f32_asc(f32::MIN_POSITIVE));
    assert!(f32_asc(f32::MAX / 2.) < f32_asc(f32::MAX));
    assert!(f32_asc(f32::MAX) < f32_asc(f32::INFINITY));
    assert!(f32_asc(f32::INFINITY) < f32_asc(f32::NAN));
}

#[test]
fn test_cmp_f32_desc() {
    assert!(f32_desc(f32::NEG_INFINITY) > f32_desc(f32::MIN));
    assert!(f32_desc(-0.0f32) > f32_desc(-0.0f32 + f32::EPSILON));
    assert!(f32_desc(-0f32) > f32_desc(0f32));
    assert!(f32_desc(0f32) > f32_desc(f32::MIN_POSITIVE));
    assert!(f32_desc(f32::MAX / 2.) > f32_desc(f32::MAX));
    assert!(f32_desc(f32::MAX) > f32_desc(f32::INFINITY));
    assert!(f32_desc(f32::INFINITY) > f32_desc(f32::NAN));
}

#[test]
fn test_cmp_f64_asc() {
    assert!(f64_asc(f64::NEG_INFINITY) < f64_asc(f64::MIN));
    assert!(f64_asc(-0.0f64) < f64_asc(-0.0f64 + f64::EPSILON));
    assert!(f64_asc(-0f64) < f64_asc(0f64));
    assert!(f64_asc(0f64) < f64_asc(f64::MIN_POSITIVE));
    assert!(f64_asc(f64::MAX / 2.) < f64_asc(f64::MAX));
    assert!(f64_asc(f64::MAX) < f64_asc(f64::INFINITY));
    assert!(f64_asc(f64::INFINITY) < f64_asc(f64::NAN));
}

#[test]
fn test_cmp_f64_desc() {
    assert!(f64_desc(f64::NEG_INFINITY) > f64_desc(f64::MIN));
    assert!(f64_desc(-0.0f64) > f64_desc(-0.0f64 + f64::EPSILON));
    assert!(f64_desc(-0f64) > f64_desc(0f64));
    assert!(f64_desc(0f64) > f64_desc(f64::MIN_POSITIVE));
    assert!(f64_desc(f64::MAX / 2.) > f64_desc(f64::MAX));
    assert!(f64_desc(f64::MAX) > f64_desc(f64::INFINITY));
    assert!(f64_desc(f64::INFINITY) > f64_desc(f64::NAN));
}

#[test]
fn test_esc_enclen_asc() {
    let v = vec![0, 0, 0xF8, 3, 1, 0, 0xFF, 0xF8, 0xFE, 1, 2, 7, 0, 1, 0xFE];
    let mut s = vec![];
    bytes_esc::serialize_bytes(&mut s, v.as_slice(), AscendingOrder).unwrap();
    let r = DeBytesReader::new(&s);
    let len = bytes_esc::bytes_length(&r, AscendingOrder).unwrap();
    assert!(v.len() == len);
}

#[test]
fn test_esc_enclen_desc() {
    let v = vec![0, 0, 0xF8, 3, 1, 0, 7, 0xFF, 0xF8, 0xFE, 1, 2, 7, 0, 1, 0xFE];
    let mut s = vec![];
    bytes_esc::serialize_bytes(&mut s, v.as_slice(), DescendingOrder).unwrap();
    let r = DeBytesReader::new(&s);
    let len = bytes_esc::bytes_length(&r, DescendingOrder).unwrap();
    assert!(v.len() == len);
}

fn cmp_esc_bytes_nested<P: EncodingParams>(param: P) {
    let data = vec![
        0, 0u8, 0, 0xFF, 0xF8, 7, 3, 1, 0, 0xFF, 0, 0xFE, 1, 2, 3, 0, 1, 0xF1, 0xF1, 0xFF, 0xF1,
        0x01, 0x0E, 0x00, 0x0E, 0xFE,
    ];
    let mut s1 = vec![];
    let mut s2 = vec![];
    bytes_esc::serialize_bytes(&mut s1, data.as_slice(), param).unwrap();
    bytes_esc::serialize_bytes(&mut s2, &s1, param).unwrap();
    let mut r2 = DeBytesReader::new(&s2);
    let dv2 = bytes_esc::deserialize_bytes_to_vec(&mut r2, param).unwrap();
    let mut r1 = DeBytesReader::new(&dv2);
    let dv1 = bytes_esc::deserialize_bytes_to_vec(&mut r1, param).unwrap();
    assert_eq!(data, dv1);
}

#[test]
fn bytes_esc_nested_asc() {
    cmp_esc_bytes_nested(AscendingOrder);
}

#[test]
fn bytes_esc_nested_desc() {
    cmp_esc_bytes_nested(DescendingOrder);
}
