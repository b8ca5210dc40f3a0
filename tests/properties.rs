use ordcode::bytes_esc::{
    deserialize_bytes_noesc_to_string, deserialize_bytes_noesc_to_vec, escape_bytes,
    serialize_bytes, serialize_bytes_noesc, unescape,
};
use ordcode::params::{AscendingOrder, DescendingOrder, NativeBinary, PortableBinary};
use ordcode::primitives::{self, invert_buffer};
use ordcode::varint::{
    varu32_decode_from_slice, varu32_encode, varu64_decode_from_slice, varu64_encode,
    varu64_encoded_len,
};
use ordcode::{
    calc_size, calc_size_asc, de_from_bytes_asc, de_from_bytes_ordered, ser_to_buf_asc_exact,
    ser_to_buf_ordered, ser_to_vec_ordered, DeBytesReader, DeBytesWriter, Error, Order, Schema,
    Value,
};

fn struct_u16_abc() -> Value {
    Value::Tuple(vec![Value::U16(1), Value::Str("abc".to_string())])
}

fn u16_asc(v: u16) -> Vec<u8> {
    let mut s = vec![];
    primitives::serialize_u16(&mut s, v, AscendingOrder).unwrap();
    s
}

#[test]
fn u16_258_ascending() {
    assert_eq!(u16_asc(258), vec![0x01, 0x02]);
    let data = [0x01_u8, 0x02];
    let mut r = DeBytesReader::new(&data);
    assert_eq!(primitives::deserialize_u16(&mut r, AscendingOrder), Ok(258));
}

#[test]
fn u16_258_descending() {
    let mut s = vec![];
    primitives::serialize_u16(&mut s, 258, DescendingOrder).unwrap();
    assert_eq!(s, vec![0xFE, 0xFD]);
    let mut r = DeBytesReader::new(&s);
    assert_eq!(primitives::deserialize_u16(&mut r, DescendingOrder), Ok(258));
}

#[test]
fn struct_into_exact_buffer() {
    let v = struct_u16_abc();
    assert_eq!(calc_size_asc(&v), Ok(6));
    let mut buf = [0_u8; 6];
    ser_to_buf_asc_exact(&mut buf, &v).unwrap();
    assert_eq!(buf, [0x00, 0x01, 0x61, 0x62, 0x63, 0x07]);
    let mut big = [0_u8; 100];
    assert_eq!(ser_to_buf_ordered(&mut big, &v, Order::Ascending), Ok(6));
    assert_eq!(&big[..6], &buf[..]);
    assert_eq!(ser_to_vec_ordered(&v, Order::Ascending).unwrap(), buf.to_vec());
}

#[test]
fn struct_from_descending_bytes() {
    let mut buf = [0xFF_u8, 0xFE, 0x9E, 0x9D, 0x9C, 0xF8];
    let schema = Schema::Tuple(vec![Schema::U16, Schema::Str]);
    let v = de_from_bytes_ordered(&mut buf, &schema, Order::Descending).unwrap();
    assert_eq!(v, struct_u16_abc());
    assert_eq!(buf, [0x00, 0x01, 0x61, 0x62, 0x63, 0x07]);
    assert_eq!(ser_to_vec_ordered(&v, Order::Descending).unwrap(), vec![0xFF, 0xFE, 0x9E, 0x9D, 0x9C, 0xF8]);
}

#[test]
fn empty_string_is_one_length_byte() {
    let v = Value::Str(String::new());
    assert_eq!(ser_to_vec_ordered(&v, Order::Ascending).unwrap(), vec![0x01]);
    assert_eq!(calc_size_asc(&v), Ok(1));
}

#[test]
fn escape_start_byte() {
    let mut s = vec![];
    serialize_bytes(&mut s, &[0xF8], AscendingOrder).unwrap();
    assert_eq!(s, vec![0xF8, 0xFF, 0xF8, 0x01]);
    assert_eq!(escape_bytes(&[0xF8], Order::Descending), vec![0x07, 0x00, 0x07, 0xFE]);
}

#[test]
fn escape_empty() {
    let mut s = vec![];
    serialize_bytes(&mut s, &[], AscendingOrder).unwrap();
    assert_eq!(s, vec![0xF8, 0x01]);
}

#[test]
fn negative_zero_sorts_before_zero() {
    let mut a = vec![];
    let mut b = vec![];
    primitives::serialize_f32(&mut a, (-0.0f32).to_bits(), AscendingOrder).unwrap();
    primitives::serialize_f32(&mut b, 0.0f32.to_bits(), AscendingOrder).unwrap();
    assert!(a < b);
    assert_eq!(a, vec![0x7F, 0xFF, 0xFF, 0xFF]);
    assert_eq!(b, vec![0x80, 0x00, 0x00, 0x00]);
}

#[test]
fn primitive_round_trips() {
    let ints: [i64; 9] = [i64::MIN, -65000, -1, 0, 1, 10, 999999, (2 << 40) + 999, i64::MAX];
    for v in ints {
        for asc in [true, false] {
            let mut s = vec![];
            if asc {
                primitives::serialize_i64(&mut s, v, AscendingOrder).unwrap();
            } else {
                primitives::serialize_i64(&mut s, v, DescendingOrder).unwrap();
            }
            let mut r = DeBytesReader::new(&s);
            let back = if asc {
                primitives::deserialize_i64(&mut r, AscendingOrder)
            } else {
                primitives::deserialize_i64(&mut r, DescendingOrder)
            };
            assert_eq!(back, Ok(v));
        }
    }
    for v in [i128::MIN, -1, 0, 1, i128::MAX] {
        let mut s = vec![];
        primitives::serialize_i128(&mut s, v, DescendingOrder).unwrap();
        let mut r = DeBytesReader::new(&s);
        assert_eq!(primitives::deserialize_i128(&mut r, DescendingOrder), Ok(v));
    }
    for v in [0u128, 1, u128::MAX] {
        let mut s = vec![];
        primitives::serialize_u128(&mut s, v, AscendingOrder).unwrap();
        let mut r = DeBytesReader::new(&s);
        assert_eq!(primitives::deserialize_u128(&mut r, AscendingOrder), Ok(v));
    }
    for f in [f64::NEG_INFINITY, -1.5, -0.0, 0.0, 1e-310, 2.5, f64::INFINITY] {
        let mut s = vec![];
        primitives::serialize_f64(&mut s, f.to_bits(), DescendingOrder).unwrap();
        let mut r = DeBytesReader::new(&s);
        assert_eq!(primitives::deserialize_f64(&mut r, DescendingOrder), Ok(f.to_bits()));
    }
    for b in [true, false] {
        let mut s = vec![];
        primitives::serialize_bool(&mut s, b, AscendingOrder).unwrap();
        assert_eq!(s, vec![b as u8]);
        let mut r = DeBytesReader::new(&s);
        assert_eq!(primitives::deserialize_bool(&mut r, AscendingOrder), Ok(b));
    }
    for c in ['a', 'é', '\u{10FFFF}'] {
        let mut s = vec![];
        primitives::serialize_char(&mut s, c, AscendingOrder).unwrap();
        let mut r = DeBytesReader::new(&s);
        assert_eq!(primitives::deserialize_char(&mut r, AscendingOrder), Ok(c));
    }
}

#[test]
fn signed_order_is_kept() {
    let vals: [i16; 7] = [i16::MIN, -1000, -1, 0, 1, 1000, i16::MAX];
    for a in vals {
        for b in vals {
            let (mut ea, mut eb, mut da, mut db) = (vec![], vec![], vec![], vec![]);
            primitives::serialize_i16(&mut ea, a, AscendingOrder).unwrap();
            primitives::serialize_i16(&mut eb, b, AscendingOrder).unwrap();
            primitives::serialize_i16(&mut da, a, DescendingOrder).unwrap();
            primitives::serialize_i16(&mut db, b, DescendingOrder).unwrap();
            assert_eq!(ea.cmp(&eb), a.cmp(&b));
            assert_eq!(da.cmp(&db), b.cmp(&a));
        }
    }
    assert_eq!(u16_asc(1) < u16_asc(256), true);
}

#[test]
fn char_out_of_range_is_refused() {
    let data = [0x00_u8, 0x00, 0xD8, 0x00];
    let mut r = DeBytesReader::new(&data);
    assert_eq!(primitives::deserialize_char(&mut r, AscendingOrder), Err(Error::InvalidUtf8Encoding));
    let short = [0x00_u8, 0x41];
    let mut r = DeBytesReader::new(&short);
    assert_eq!(primitives::deserialize_char(&mut r, AscendingOrder), Err(Error::PrematureEndOfInput));
}

#[test]
fn native_binary_round_trip() {
    let mut s = vec![];
    primitives::serialize_u32(&mut s, 0x0102_0304, NativeBinary).unwrap();
    assert!(s == vec![1, 2, 3, 4] || s == vec![4, 3, 2, 1]);
    assert_eq!(s, 0x0102_0304u32.to_ne_bytes().to_vec());
    let mut r = DeBytesReader::new(&s);
    assert_eq!(primitives::deserialize_u32(&mut r, NativeBinary), Ok(0x0102_0304));
}

#[test]
fn escaped_round_trip_and_concatenation() {
    let x = vec![1_u8, 0xF8, 0xF8, 0, 0xFF];
    let y = vec![0xF8_u8];
    for order in [Order::Ascending, Order::Descending] {
        let mut both = escape_bytes(&x, order);
        both.extend_from_slice(&escape_bytes(&y, order));
        let (cx, kx) = unescape(&both, order).unwrap();
        assert_eq!(cx, x);
        let (cy, ky) = unescape(&both[kx..], order).unwrap();
        assert_eq!(cy, y);
        assert_eq!(kx + ky, both.len());
    }
}

#[test]
fn escaped_order() {
    let samples: Vec<Vec<u8>> = vec![
        vec![],
        vec![0xF8],
        vec![0xF9],
        vec![0xF8, 0xF8],
        vec![1, 2],
        vec![1, 3],
        vec![0xFF, 0],
    ];
    for a in &samples {
        for b in &samples {
            let prefix_below = |x: &Vec<u8>, y: &Vec<u8>| {
                x.len() < y.len() && y.starts_with(x) && y[x.len()] < 0xF8
            };
            if prefix_below(a, b) || prefix_below(b, a) {
                continue;
            }
            let ea = escape_bytes(a, Order::Ascending);
            let eb = escape_bytes(b, Order::Ascending);
            assert_eq!(ea.cmp(&eb), a.cmp(b));
            let da = escape_bytes(a, Order::Descending);
            let db = escape_bytes(b, Order::Descending);
            assert_eq!(da.cmp(&db), b.cmp(a));
        }
    }
    // a proper prefix followed by a byte below the escape byte does not keep its order
    assert!(escape_bytes(&[], Order::Ascending) > escape_bytes(&[0], Order::Ascending));
}

#[test]
fn invalid_escape_and_truncation() {
    assert_eq!(unescape(&[1, 0xF8, 0x05], Order::Ascending), Err(Error::InvalidByteSequenceEscape));
    assert_eq!(unescape(&[1, 2, 0xF8], Order::Ascending), Err(Error::PrematureEndOfInput));
    assert_eq!(unescape(&[1, 2], Order::Ascending), Err(Error::PrematureEndOfInput));
}

#[test]
fn unescaped_sequences() {
    let mut s = vec![];
    serialize_bytes_noesc(&mut s, &[1, 2, 0xF8], DescendingOrder).unwrap();
    assert_eq!(s, vec![0xFE, 0xFD, 0x07]);
    let mut r = DeBytesReader::new(&s);
    assert_eq!(deserialize_bytes_noesc_to_vec(&mut r, DescendingOrder), Ok(vec![1, 2, 0xF8]));
    let text = b"h\xC3\xA9".to_vec();
    let mut r = DeBytesReader::new(&text);
    assert_eq!(deserialize_bytes_noesc_to_string(&mut r, AscendingOrder), Ok("hé".to_string()));
    let bad = [0xFF_u8, 0x41];
    let mut r = DeBytesReader::new(&bad);
    assert_eq!(deserialize_bytes_noesc_to_string(&mut r, AscendingOrder), Err(Error::InvalidUtf8Encoding));
}

#[test]
fn varint_boundaries_round_trip() {
    let mut vals = vec![0u64, 1, u64::MAX];
    for l in 1..9 {
        vals.push((1u64 << (7 * l)) - 1);
        vals.push(1u64 << (7 * l));
    }
    for v in vals {
        let e = varu64_encode(v);
        assert_eq!(e.len(), varu64_encoded_len(v) as usize);
        assert_eq!(varu64_decode_from_slice(&e), Ok((v, e.len() as u8)));
    }
    for v in [0u32, 127, 128, (1 << 28) - 1, 1 << 28, u32::MAX] {
        let e = varu32_encode(v);
        assert_eq!(varu32_decode_from_slice(&e), Ok((v, e.len() as u8)));
    }
}

#[test]
fn non_canonical_varints_are_refused() {
    assert_eq!(varu64_decode_from_slice(&[0x02, 0x00]), Err(Error::InvalidVarintEncoding));
    assert_eq!(varu32_decode_from_slice(&[0x10, 1, 0, 0, 0x10]), Err(Error::InvalidVarintEncoding));
    assert_eq!(varu32_decode_from_slice(&[0x00, 1, 2]), Err(Error::InvalidVarintEncoding));
}

fn sample_values() -> Vec<Value> {
    vec![
        Value::Unit,
        Value::Bool(true),
        Value::Str("hello".to_string()),
        Value::Bytes(vec![0; 200]),
        Value::Opt(Some(Box::new(Value::I32(-7)))),
        Value::Sequence((0..300).map(|i| Value::U16(i)).collect()),
        Value::Mapping(vec![(Value::Char('k'), Value::F64(1.5f64.to_bits()))]),
        Value::Variant(70000, Box::new(Value::Tuple(vec![Value::U8(1), Value::I128(-1)]))),
    ]
}

#[test]
fn size_matches_serialized_length() {
    for v in sample_values() {
        let n = calc_size(&v, AscendingOrder).unwrap();
        assert_eq!(ser_to_vec_ordered(&v, Order::Ascending).unwrap().len(), n);
        assert_eq!(calc_size(&v, PortableBinary), Ok(n));
    }
    assert_eq!(calc_size_asc(&Value::Variant(70000, Box::new(Value::Unit))), Ok(3));
}

#[test]
fn exact_buffer_discipline() {
    for v in sample_values() {
        let n = calc_size_asc(&v).unwrap();
        let mut exact = vec![0_u8; n];
        assert_eq!(ser_to_buf_asc_exact(&mut exact, &v), Ok(()));
        let mut larger = vec![0_u8; n + 1];
        assert_eq!(ser_to_buf_asc_exact(&mut larger, &v), Err(Error::BufferUnderflow));
        if n > 0 {
            let mut smaller = vec![0_u8; n - 1];
            assert_eq!(ser_to_buf_asc_exact(&mut smaller, &v), Err(Error::BufferOverflow));
            assert_eq!(ser_to_buf_ordered(&mut smaller, &v, Order::Ascending), Err(Error::BufferOverflow));
        }
    }
}

#[test]
fn lengths_go_to_the_tail() {
    let v = Value::Tuple(vec![Value::Bytes(vec![9, 9]), Value::Sequence(vec![Value::U8(7)])]);
    assert_eq!(ser_to_vec_ordered(&v, Order::Ascending).unwrap(), vec![9, 9, 7, 0x03, 0x05]);
    let mut buf = vec![0xAA_u8; 8];
    let mut w = DeBytesWriter::new(&mut buf);
    let mut ser = ordcode::Serializer::new(w, PortableBinary);
    ser.serialize_value(&v).unwrap();
    w = ser.into_writer();
    assert_eq!(w.finalize(), Ok(5));
    assert_eq!(&buf[..5], &[0x05, 9, 9, 0x03, 7]);
}

#[test]
fn deserialize_errors() {
    let tag2 = [2_u8, 0];
    assert_eq!(
        de_from_bytes_asc(&tag2, &Schema::Opt(Box::new(Schema::U8))),
        Err(Error::InvalidTagEncoding)
    );
    let not_utf8 = [0xFF_u8, 0x03];
    assert_eq!(de_from_bytes_asc(&not_utf8, &Schema::Str), Err(Error::InvalidUtf8Encoding));
    let short = [0_u8];
    assert_eq!(de_from_bytes_asc(&short, &Schema::U16), Err(Error::PrematureEndOfInput));
    let bad_variant = [0x05_u8];
    assert_eq!(
        de_from_bytes_asc(&bad_variant, &Schema::Enum(vec![Schema::Unit])),
        Err(Error::InvalidTagEncoding)
    );
    let bool2 = [2_u8];
    assert_eq!(de_from_bytes_asc(&bool2, &Schema::Bool), Err(Error::InvalidTagEncoding));
}

#[test]
fn invert_is_complement() {
    let mut b = [0_u8, 1, 0xF8, 0xFF];
    invert_buffer(&mut b);
    assert_eq!(b, [0xFF, 0xFE, 0x07, 0x00]);
}

#[test]
fn error_descriptions() {
    assert_eq!(Error::BufferOverflow.descr(), "serialized data buffer overflow");
    assert_eq!(Error::InvalidVarintEncoding.descr(), "invalid varint encoding");
}

#[test]
fn descending_inverts_only_the_serialized_bytes() {
    let v = struct_u16_abc();
    let mut buf = [0x55_u8; 9];
    assert_eq!(ser_to_buf_ordered(&mut buf, &v, Order::Descending), Ok(6));
    assert_eq!(buf, [0xFF, 0xFE, 0x9E, 0x9D, 0x9C, 0xF8, 0x55, 0x55, 0x07]);
    let mut b = [1_u8, 2, 3];
    primitives::invert_prefix(&mut b, 2);
    assert_eq!(b, [0xFE, 0xFD, 3]);
}

#[test]
fn varuint_trait_methods() {
    use_varuint();
}

fn use_varuint() {
    let mut bytes = [0xAA_u8; 9];
    let l = ordcode::varint::VarUInt::varu_to_slice(&300u64, &mut bytes);
    assert_eq!(l, 2);
    assert_eq!(&bytes[..3], &[0xB2, 0x04, 0xAA]);
    assert_eq!(<u64 as ordcode::varint::VarUInt>::varu_from_slice(&bytes), Ok((300, 2)));
    assert_eq!(<u32 as ordcode::varint::VarUInt>::varu_decoded_len(0xB2), 2);
    assert_eq!(ordcode::varint::VarUInt::varu_encoded_len(&(1u32 << 28)), 5);
    let mut out = vec![];
    ordcode::varint::VarUInt::varu_to_writer(&7u32, &mut out).unwrap();
    assert_eq!(out, vec![0x0F]);
    let mut r = DeBytesReader::new(&out);
    assert_eq!(<u32 as ordcode::varint::VarUInt>::varu_from_reader(&mut r), Ok(7));
}
