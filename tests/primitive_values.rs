use ordcode::params::{AscendingOrder, DescendingOrder};
use ordcode::{
    calc_size, de_from_bytes_ordered, new_ser_asc, primitives, ser_to_buf_ordered,
    ser_to_vec_ordered, DeBytesReader, DeBytesWriter, Error, Order, Schema, Value,
};
use std::fmt::Debug;

const V_U8: &[u8] = &[u8::MIN, 0, 1, 10, 130, u8::MAX];
const V_U16: &[u16] = &[u16::MIN, 0, 1, 10, 1000, 65000, u16::MAX];
const V_U32: &[u32] = &[u32::MIN, 0, 1, 10, 65000, 999999, u32::MAX];
const V_U64: &[u64] = &[u64::MIN, 0, 1, 65000, 999999, (2 << 40) + 999, u64::MAX];
const V_I8: &[i8] = &[i8::MIN, 0, 1, 10, 99, -1, -10, -99, i8::MAX];
const V_I16: &[i16] = &[i16::MIN, 0, 1, 10, 1000, 32700, -1, -10, -1000, -32700, i16::MAX];
const V_I32: &[i32] = &[i32::MIN, 0, 1, 10, 65000, 999999, -1, -10, -65000, -999999, i32::MAX];
const V_I64: &[i64] = &[
    i64::MIN, 0, 1, 65000, 999999, (2 << 40) + 999, -1, -65000, -999999, -((2 << 40) + 999), i64::MAX,
];
const V_U128: &[u128] = &[u128::MIN, 0, 1, 65000, 999999, (2 << 90) + 999, u128::MAX];
const V_I128: &[i128] = &[
    i128::MIN, 0, 1, 65000, 999999, (2 << 90) + 999, -1, -65000, -999999, -((2 << 90) + 999), i128::MAX,
];
const V_BOOL: &[bool] = &[true, false];
const V_F32: &[f32] = &[
    f32::NEG_INFINITY, f32::MIN, 0.0, f32::MIN_POSITIVE, f32::MAX, f32::INFINITY, 10.123e10,
    -111.111e-11, 1.0, -1.0,
];
const V_F64: &[f64] = &[
    f64::NEG_INFINITY, f64::MIN, 0.0, f64::MIN_POSITIVE, f64::MAX, f64::INFINITY, 10.123e10,
    -111.111e-11, 1.0, -1.0,
];

/// Writes each value ascending at the head and descending at the tail of one buffer, then
/// reads both back.
fn head_and_tail<T: Copy + PartialEq + Debug>(
    vals: &[T],
    width: usize,
    ser: fn(&mut Vec<u8>, T, bool),
    de: fn(&mut DeBytesReader, bool) -> Result<T, Error>,
) {
    for val in vals {
        let mut asc = vec![];
        ser(&mut asc, *val, true);
        let mut desc = vec![];
        ser(&mut desc, *val, false);
        assert_eq!(asc.len(), width);
        assert_eq!(desc, asc.iter().map(|b| !b).collect::<Vec<u8>>());
        let mut buf = vec![0_u8; 128];
        let mut w = DeBytesWriter::new(&mut buf);
        w.write(&asc).unwrap();
        w.write_tail(&desc).unwrap();
        let n = w.finalize().unwrap();
        let mut r = DeBytesReader::new(&buf[..n]);
        assert_eq!(de(&mut r, true), Ok(*val));
        let tail = r.read_tail(width).unwrap();
        let mut rt = DeBytesReader::new(tail);
        assert_eq!(de(&mut rt, false), Ok(*val));
        assert_eq!(r.is_complete(), Ok(()));
    }
}

/// Encodings of every pair compare as the values do, reversed for descending order.
fn pairwise<T: Copy + PartialOrd>(vals: &[T], ser: fn(&mut Vec<u8>, T, bool)) {
    let enc = |v: T, asc: bool| {
        let mut s = vec![];
        ser(&mut s, v, asc);
        s
    };
    for v1 in vals {
        for v2 in vals {
            assert_eq!(enc(*v1, true) <= enc(*v2, true), *v1 <= *v2);
            assert_eq!(enc(*v1, true) > enc(*v2, true), *v1 > *v2);
            assert_eq!(enc(*v1, false) <= enc(*v2, false), *v1 >= *v2);
            assert_eq!(enc(*v1, false) > enc(*v2, false), *v1 < *v2);
        }
    }
}

fn ser_u8(s: &mut Vec<u8>, v: u8, asc: bool) {
    (if asc { primitives::serialize_u8(s, v, AscendingOrder) } else { primitives::serialize_u8(s, v, DescendingOrder) }).unwrap()
}
fn de_u8(r: &mut DeBytesReader, asc: bool) -> Result<u8, Error> {
    if asc { primitives::deserialize_u8(r, AscendingOrder) } else { primitives::deserialize_u8(r, DescendingOrder) }
}
fn ser_u16(s: &mut Vec<u8>, v: u16, asc: bool) {
    (if asc { primitives::serialize_u16(s, v, AscendingOrder) } else { primitives::serialize_u16(s, v, DescendingOrder) }).unwrap()
}
fn de_u16(r: &mut DeBytesReader, asc: bool) -> Result<u16, Error> {
    if asc { primitives::deserialize_u16(r, AscendingOrder) } else { primitives::deserialize_u16(r, DescendingOrder) }
}
fn ser_u32(s: &mut Vec<u8>, v: u32, asc: bool) {
    (if asc { primitives::serialize_u32(s, v, AscendingOrder) } else { primitives::serialize_u32(s, v, DescendingOrder) }).unwrap()
}
fn de_u32(r: &mut DeBytesReader, asc: bool) -> Result<u32, Error> {
    if asc { primitives::deserialize_u32(r, AscendingOrder) } else { primitives::deserialize_u32(r, DescendingOrder) }
}
fn ser_u64(s: &mut Vec<u8>, v: u64, asc: bool) {
    (if asc { primitives::serialize_u64(s, v, AscendingOrder) } else { primitives::serialize_u64(s, v, DescendingOrder) }).unwrap()
}
fn de_u64(r: &mut DeBytesReader, asc: bool) -> Result<u64, Error> {
    if asc { primitives::deserialize_u64(r, AscendingOrder) } else { primitives::deserialize_u64(r, DescendingOrder) }
}
fn ser_u128(s: &mut Vec<u8>, v: u128, asc: bool) {
    (if asc { primitives::serialize_u128(s, v, AscendingOrder) } else { primitives::serialize_u128(s, v, DescendingOrder) }).unwrap()
}
fn de_u128(r: &mut DeBytesReader, asc: bool) -> Result<u128, Error> {
    if asc { primitives::deserialize_u128(r, AscendingOrder) } else { primitives::deserialize_u128(r, DescendingOrder) }
}
fn ser_i8(s: &mut Vec<u8>, v: i8, asc: bool) {
    (if asc { primitives::serialize_i8(s, v, AscendingOrder) } else { primitives::serialize_i8(s, v, DescendingOrder) }).unwrap()
}
fn de_i8(r: &mut DeBytesReader, asc: bool) -> Result<i8, Error> {
    if asc { primitives::deserialize_i8(r, AscendingOrder) } else { primitives::deserialize_i8(r, DescendingOrder) }
}
fn ser_i16(s: &mut Vec<u8>, v: i16, asc: bool) {
    (if asc { primitives::serialize_i16(s, v, AscendingOrder) } else { primitives::serialize_i16(s, v, DescendingOrder) }).unwrap()
}
fn de_i16(r: &mut DeBytesReader, asc: bool) -> Result<i16, Error> {
    if asc { primitives::deserialize_i16(r, AscendingOrder) } else { primitives::deserialize_i16(r, DescendingOrder) }
}
fn ser_i32(s: &mut Vec<u8>, v: i32, asc: bool) {
    (if asc { primitives::serialize_i32(s, v, AscendingOrder) } else { primitives::serialize_i32(s, v, DescendingOrder) }).unwrap()
}
fn de_i32(r: &mut DeBytesReader, asc: bool) -> Result<i32, Error> {
    if asc { primitives::deserialize_i32(r, AscendingOrder) } else { primitives::deserialize_i32(r, DescendingOrder) }
}
fn ser_i64(s: &mut Vec<u8>, v: i64, asc: bool) {
    (if asc { primitives::serialize_i64(s, v, AscendingOrder) } else { primitives::serialize_i64(s, v, DescendingOrder) }).unwrap()
}
fn de_i64(r: &mut DeBytesReader, asc: bool) -> Result<i64, Error> {
    if asc { primitives::deserialize_i64(r, AscendingOrder) } else { primitives::deserialize_i64(r, DescendingOrder) }
}
fn ser_i128(s: &mut Vec<u8>, v: i128, asc: bool) {
    (if asc { primitives::serialize_i128(s, v, AscendingOrder) } else { primitives::serialize_i128(s, v, DescendingOrder) }).unwrap()
}
fn de_i128(r: &mut DeBytesReader, asc: bool) -> Result<i128, Error> {
    if asc { primitives::deserialize_i128(r, AscendingOrder) } else { primitives::deserialize_i128(r, DescendingOrder) }
}
fn ser_bool(s: &mut Vec<u8>, v: bool, asc: bool) {
    (if asc { primitives::serialize_bool(s, v, AscendingOrder) } else { primitives::serialize_bool(s, v, DescendingOrder) }).unwrap()
}
fn de_bool(r: &mut DeBytesReader, asc: bool) -> Result<bool, Error> {
    if asc { primitives::deserialize_bool(r, AscendingOrder) } else { primitives::deserialize_bool(r, DescendingOrder) }
}
fn ser_f32(s: &mut Vec<u8>, v: f32, asc: bool) {
    (if asc { primitives::serialize_f32(s, v.to_bits(), AscendingOrder) } else { primitives::serialize_f32(s, v.to_bits(), DescendingOrder) }).unwrap()
}
fn de_f32(r: &mut DeBytesReader, asc: bool) -> Result<f32, Error> {
    (if asc { primitives::deserialize_f32(r, AscendingOrder) } else { primitives::deserialize_f32(r, DescendingOrder) }).map(f32::from_bits)
}
fn ser_f64(s: &mut Vec<u8>, v: f64, asc: bool) {
    (if asc { primitives::serialize_f64(s, v.to_bits(), AscendingOrder) } else { primitives::serialize_f64(s, v.to_bits(), DescendingOrder) }).unwrap()
}
fn de_f64(r: &mut DeBytesReader, asc: bool) -> Result<f64, Error> {
    (if asc { primitives::deserialize_f64(r, AscendingOrder) } else { primitives::deserialize_f64(r, DescendingOrder) }).map(f64::from_bits)
}

#[test]
fn serialize_u8() { head_and_tail(V_U8, 1, ser_u8, de_u8); }
#[test]
fn serialize_u16() { head_and_tail(V_U16, 2, ser_u16, de_u16); }
#[test]
fn serialize_u32() { head_and_tail(V_U32, 4, ser_u32, de_u32); }
#[test]
fn serialize_u64() { head_and_tail(V_U64, 8, ser_u64, de_u64); }
#[test]
fn serialize_u128() { head_and_tail(V_U128, 16, ser_u128, de_u128); }
#[test]
fn serialize_i8() { head_and_tail(V_I8, 1, ser_i8, de_i8); }
#[test]
fn serialize_i16() { head_and_tail(V_I16, 2, ser_i16, de_i16); }
#[test]
fn serialize_i32() { head_and_tail(V_I32, 4, ser_i32, de_i32); }
#[test]
fn serialize_i64() { head_and_tail(V_I64, 8, ser_i64, de_i64); }
#[test]
fn serialize_i128() { head_and_tail(V_I128, 16, ser_i128, de_i128); }
#[test]
fn serialize_bool() { head_and_tail(V_BOOL, 1, ser_bool, de_bool); }
#[test]
fn serialize_f32() { head_and_tail(V_F32, 4, ser_f32, de_f32); }
#[test]
fn serialize_f64() { head_and_tail(V_F64, 8, ser_f64, de_f64); }

#[test]
fn cmp_u8() { pairwise(V_U8, ser_u8); }
#[test]
fn cmp_u16() { pairwise(V_U16, ser_u16); }
#[test]
fn cmp_u32() { pairwise(V_U32, ser_u32); }
#[test]
fn cmp_u64() { pairwise(V_U64, ser_u64); }
#[test]
fn cmp_u128() { pairwise(V_U128, ser_u128); }
#[test]
fn cmp_i8() { pairwise(V_I8, ser_i8); }
#[test]
fn cmp_i16() { pairwise(V_I16, ser_i16); }
#[test]
fn cmp_i32() { pairwise(V_I32, ser_i32); }
#[test]
fn cmp_i64() { pairwise(V_I64, ser_i64); }
#[test]
fn cmp_i128() { pairwise(V_I128, ser_i128); }
#[test]
fn cmp_f32() { pairwise(V_F32, ser_f32); }
#[test]
fn cmp_f64() { pairwise(V_F64, ser_f64); }

fn int_values() -> Vec<(Value, Schema, usize)> {
    let mut out = vec![];
    for v in V_U8 { out.push((Value::U8(*v), Schema::U8, 1)); }
    for v in V_U16 { out.push((Value::U16(*v), Schema::U16, 2)); }
    for v in V_U32 { out.push((Value::U32(*v), Schema::U32, 4)); }
    for v in V_U64 { out.push((Value::U64(*v), Schema::U64, 8)); }
    for v in V_U128 { out.push((Value::U128(*v), Schema::U128, 16)); }
    for v in V_I8 { out.push((Value::I8(*v), Schema::I8, 1)); }
    for v in V_I16 { out.push((Value::I16(*v), Schema::I16, 2)); }
    for v in V_I32 { out.push((Value::I32(*v), Schema::I32, 4)); }
    for v in V_I64 { out.push((Value::I64(*v), Schema::I64, 8)); }
    for v in V_I128 { out.push((Value::I128(*v), Schema::I128, 16)); }
    out
}

#[test]
fn entry_points_round_trip_integers() {
    for (v, schema, width) in int_values() {
        for order in [Order::Ascending, Order::Descending] {
            let mut buf = [0_u8; 64];
            let n = ser_to_buf_ordered(&mut buf, &v, order).unwrap();
            assert_eq!(n, width);
            assert_eq!(calc_size(&v, AscendingOrder), Ok(n));
            assert_eq!(de_from_bytes_ordered(&mut buf[..n], &schema, order), Ok(v.clone_shallow()));
        }
    }
}

trait CloneShallow {
    fn clone_shallow(&self) -> Value;
}

impl CloneShallow for Value {
    fn clone_shallow(&self) -> Value {
        match self {
            Value::U8(x) => Value::U8(*x),
            Value::U16(x) => Value::U16(*x),
            Value::U32(x) => Value::U32(*x),
            Value::U64(x) => Value::U64(*x),
            Value::U128(x) => Value::U128(*x),
            Value::I8(x) => Value::I8(*x),
            Value::I16(x) => Value::I16(*x),
            Value::I32(x) => Value::I32(*x),
            Value::I64(x) => Value::I64(*x),
            Value::I128(x) => Value::I128(*x),
            Value::F32(x) => Value::F32(*x),
            Value::F64(x) => Value::F64(*x),
            _ => panic!(),
        }
    }
}

#[test]
fn entry_points_order_integers() {
    let vals = int_values();
    for (a, _, wa) in &vals {
        for (b, _, wb) in &vals {
            if wa != wb || std::mem::discriminant(a) != std::mem::discriminant(b) {
                continue;
            }
            let ea = ser_to_vec_ordered(a, Order::Ascending).unwrap();
            let eb = ser_to_vec_ordered(b, Order::Ascending).unwrap();
            let key = |v: &Value| -> u128 {
                let flip = |x: i128| (x as u128) ^ (1u128 << 127);
                match v {
                    Value::U8(x) => *x as u128,
                    Value::U16(x) => *x as u128,
                    Value::U32(x) => *x as u128,
                    Value::U64(x) => *x as u128,
                    Value::U128(x) => *x,
                    Value::I8(x) => flip(*x as i128),
                    Value::I16(x) => flip(*x as i128),
                    Value::I32(x) => flip(*x as i128),
                    Value::I64(x) => flip(*x as i128),
                    Value::I128(x) => flip(*x),
                    _ => panic!(),
                }
            };
            assert_eq!(ea.len(), *wa);
            assert_eq!(ea.cmp(&eb), key(a).cmp(&key(b)));
            let mut ba = [0_u8; 16];
            let mut bb = [0_u8; 16];
            assert_eq!(ser_to_buf_ordered(&mut ba, a, Order::Descending), Ok(*wa));
            assert_eq!(ser_to_buf_ordered(&mut bb, b, Order::Descending), Ok(*wb));
            for i in 0..*wa {
                assert_eq!(ba[i], !ea[i]);
            }
            assert_eq!(ba[..*wa].cmp(&bb[..*wb]), key(b).cmp(&key(a)));
        }
    }
}

#[test]
fn entry_points_floats() {
    let f32s: Vec<f32> = vec![
        f32::NEG_INFINITY, f32::MIN, -1.0, -f32::MIN_POSITIVE, -1e-45, -0.0, 0.0, 1e-45,
        f32::MIN_POSITIVE, 1.0, f32::MAX, f32::INFINITY, f32::NAN, f32::from_bits(0x7FC0_1234),
    ];
    for a in &f32s {
        for order in [Order::Ascending, Order::Descending] {
            let mut buf = [0_u8; 64];
            let n = ser_to_buf_ordered(&mut buf, &Value::F32(a.to_bits()), order).unwrap();
            assert_eq!(n, 4);
            assert_eq!(de_from_bytes_ordered(&mut buf[..n], &Schema::F32, order), Ok(Value::F32(a.to_bits())));
        }
        for b in &f32s {
            let ea = ser_to_vec_ordered(&Value::F32(a.to_bits()), Order::Ascending).unwrap();
            let eb = ser_to_vec_ordered(&Value::F32(b.to_bits()), Order::Ascending).unwrap();
            let da = ser_to_vec_ordered(&Value::F32(a.to_bits()), Order::Descending).unwrap();
            let db = ser_to_vec_ordered(&Value::F32(b.to_bits()), Order::Descending).unwrap();
            assert_eq!(ea.cmp(&eb), a.total_cmp(b));
            assert_eq!(da.cmp(&db), b.total_cmp(a));
        }
    }
    let f64s: Vec<f64> = vec![f64::NEG_INFINITY, -2.5, -0.0, 0.0, 5e-324, 2.5, f64::INFINITY, f64::NAN];
    for a in &f64s {
        for order in [Order::Ascending, Order::Descending] {
            let mut buf = [0_u8; 64];
            let n = ser_to_buf_ordered(&mut buf, &Value::F64(a.to_bits()), order).unwrap();
            assert_eq!(n, 8);
            assert_eq!(de_from_bytes_ordered(&mut buf[..n], &Schema::F64, order), Ok(Value::F64(a.to_bits())));
        }
        for b in &f64s {
            let ea = ser_to_vec_ordered(&Value::F64(a.to_bits()), Order::Ascending).unwrap();
            let eb = ser_to_vec_ordered(&Value::F64(b.to_bits()), Order::Ascending).unwrap();
            assert_eq!(ea.cmp(&eb), a.total_cmp(b));
        }
    }
}

#[test]
fn char_round_trip_through_writer() {
    for c in ['\0', 'a', 'é', '\u{D7FF}', '\u{E000}', '\u{10FFFF}'] {
        for asc in [true, false] {
            let mut w = vec![];
            if asc {
                primitives::serialize_char(&mut w, c, AscendingOrder).unwrap();
            } else {
                primitives::serialize_char(&mut w, c, DescendingOrder).unwrap();
            }
            let code = (c as u32).to_be_bytes().to_vec();
            assert_eq!(w, if asc { code } else { code.iter().map(|b| !b).collect() });
            let mut r = DeBytesReader::new(&w);
            let back = if asc {
                primitives::deserialize_char(&mut r, AscendingOrder)
            } else {
                primitives::deserialize_char(&mut r, DescendingOrder)
            };
            assert_eq!(back, Ok(c));
            assert!(r.remaining_buffer().is_empty());
        }
    }
}

#[test]
fn full_serialization_fills_the_exact_buffer() {
    let v = Value::Tuple(vec![
        Value::Str("key".to_string()),
        Value::Sequence(vec![Value::U32(1), Value::U32(2)]),
        Value::Variant(3, Box::new(Value::Bool(true))),
    ]);
    let n = calc_size(&v, AscendingOrder).unwrap();
    let mut buf = vec![0_u8; n];
    let w = DeBytesWriter::new(&mut buf);
    let mut ser = new_ser_asc(w);
    ser.serialize_value(&v).unwrap();
    let mut w = ser.into_writer();
    assert_eq!(w.is_complete(), Ok(()));
    assert_eq!(w.finalize(), Ok(n));
    let expected = ser_to_vec_ordered(&v, Order::Ascending).unwrap();
    assert_eq!(buf, expected);
}

#[test]
fn truncated_five_byte_varint_is_premature() {
    assert_eq!(ordcode::varint::varu32_decode_from_slice(&[0x10]), Err(Error::PrematureEndOfInput));
    assert_eq!(
        <u32 as ordcode::varint::VarUInt>::varu_from_slice(&[0x10]),
        Err(Error::PrematureEndOfInput)
    );
    assert_eq!(
        ordcode::varint::varu32_decode_from_slice(&[0x10, 1, 2, 3, 4]),
        Err(Error::InvalidVarintEncoding)
    );
    let mut r = DeBytesReader::new(&[0x10]);
    assert_eq!(ordcode::varint::varu32_decode_from_tail(&mut r), Err(Error::PrematureEndOfInput));
}
