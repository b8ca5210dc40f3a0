use ordcode::{
    de_from_bytes_asc, de_from_bytes_ordered, ser_to_buf_ordered, ser_to_vec_ordered, Error,
    Order, Schema, Value,
};

fn serialize_asc(v: &Value) -> Result<Vec<u8>, Error> {
    ser_to_vec_ordered(v, Order::Ascending)
}

fn deserialize_asc(b: &[u8], schema: &Schema) -> Result<Value, Error> {
    de_from_bytes_asc(b, schema)
}

fn serialize_desc(v: &Value) -> Result<Vec<u8>, Error> {
    ser_to_vec_ordered(v, Order::Descending)
}

fn deserialize_desc(b: &mut [u8], schema: &Schema) -> Result<Value, Error> {
    de_from_bytes_ordered(b, schema, Order::Descending)
}

fn the_same(element: Value, schema: Schema) {
    for order in [Order::Ascending, Order::Descending] {
        let mut buf = vec![0_u8; 1 << 16];
        let len = ser_to_buf_ordered(&mut buf, &element, order).unwrap();
        let decoded = de_from_bytes_ordered(&mut buf[..len], &schema, order).unwrap();
        assert_eq!(element, decoded);
    }
}

fn s(text: &str) -> Value {
    Value::Str(text.to_string())
}

fn easy(x: i64, text: &str, y: u64) -> Value {
    Value::Tuple(vec![Value::I64(x), s(text), Value::U64(y)])
}

fn easy_schema() -> Schema {
    Schema::Tuple(vec![Schema::I64, Schema::Str, Schema::U64])
}

#[test]
fn test_numbers() {
    the_same(Value::U8(5), Schema::U8);
    the_same(Value::U16(5), Schema::U16);
    the_same(Value::U32(5), Schema::U32);
    the_same(Value::U64(5), Schema::U64);
    the_same(Value::U64(5usize as u64), Schema::U64);
    the_same(Value::I8(5), Schema::I8);
    the_same(Value::I16(5), Schema::I16);
    the_same(Value::I32(5), Schema::I32);
    the_same(Value::I64(5), Schema::I64);
    the_same(Value::I64(5isize as i64), Schema::I64);
    the_same(Value::I8(-5), Schema::I8);
    the_same(Value::I16(-5), Schema::I16);
    the_same(Value::I32(-5), Schema::I32);
    the_same(Value::I64(-5), Schema::I64);
    the_same(Value::I64(-5isize as i64), Schema::I64);
    the_same(Value::F32((-100f32).to_bits()), Schema::F32);
    the_same(Value::F32(0f32.to_bits()), Schema::F32);
    the_same(Value::F32(5f32.to_bits()), Schema::F32);
    the_same(Value::F64((-100f64).to_bits()), Schema::F64);
    the_same(Value::F64(5f64.to_bits()), Schema::F64);
}

#[test]
fn test_numbers_128bit() {
    the_same(Value::U128(5), Schema::U128);
    the_same(Value::U128(u128::MAX), Schema::U128);
    the_same(Value::I128(5), Schema::I128);
    the_same(Value::I128(i128::MAX), Schema::I128);
    the_same(Value::I128(-5), Schema::I128);
    the_same(Value::I128(i128::MIN), Schema::I128);
}

#[test]
fn test_string() {
    the_same(s(""), Schema::Str);
    the_same(s("a"), Schema::Str);
}

#[test]
fn test_tuple() {
    the_same(Value::Tuple(vec![Value::I64(1)]), Schema::Tuple(vec![Schema::I64]));
    the_same(
        Value::Tuple(vec![Value::I64(1), Value::I64(2), Value::I64(3)]),
        Schema::Tuple(vec![Schema::I64, Schema::I64, Schema::I64]),
    );
    the_same(
        Value::Tuple(vec![Value::I64(1), s("foo"), Value::Unit]),
        Schema::Tuple(vec![Schema::I64, Schema::Str, Schema::Unit]),
    );
}

#[test]
fn test_basic_struct() {
    the_same(easy(-4, "foo", 10), easy_schema());
}

#[test]
fn test_nested_struct() {
    the_same(
        Value::Tuple(vec![easy(-1, "foo", 20), Value::U64(100), easy(-100, "bar", 20)]),
        Schema::Tuple(vec![easy_schema(), Schema::U64, easy_schema()]),
    );
}

#[test]
fn test_struct_newtype() {
    the_same(Value::U64(5), Schema::U64);
}

#[test]
fn test_struct_tuple() {
    the_same(
        Value::Tuple(vec![Value::U64(5), s("hello"), Value::F32(3.2f32.to_bits())]),
        Schema::Tuple(vec![Schema::U64, Schema::Str, Schema::F32]),
    );
}

#[test]
fn test_option() {
    the_same(
        Value::Opt(Some(Box::new(Value::U64(5)))),
        Schema::Opt(Box::new(Schema::U64)),
    );
    the_same(
        Value::Opt(Some(Box::new(s("foo bar")))),
        Schema::Opt(Box::new(Schema::Str)),
    );
    the_same(Value::Opt(None), Schema::Opt(Box::new(Schema::U64)));
}

fn test_enum_schema() -> Schema {
    Schema::Enum(vec![
        Schema::Unit,
        Schema::U64,
        Schema::Tuple(vec![Schema::U64, Schema::U64]),
        Schema::Unit,
        Schema::Tuple(vec![Schema::U64, Schema::F32]),
    ])
}

fn variant(idx: u32, payload: Value) -> Value {
    Value::Variant(idx, Box::new(payload))
}

#[test]
fn test_enum() {
    the_same(variant(0, Value::Unit), test_enum_schema());
    the_same(variant(1, Value::U64(4)), test_enum_schema());
    the_same(
        variant(2, Value::Tuple(vec![Value::U64(4), Value::U64(5)])),
        test_enum_schema(),
    );
    the_same(variant(3, Value::Unit), test_enum_schema());
    the_same(
        variant(
            4,
            Value::Tuple(vec![Value::U64(4), Value::F32(std::f32::consts::PI.to_bits())]),
        ),
        test_enum_schema(),
    );
    the_same(
        Value::Sequence(vec![
            variant(0, Value::Unit),
            variant(1, Value::U64(5)),
            variant(3, Value::Unit),
            variant(4, Value::Tuple(vec![Value::U64(4), Value::F32(1.4f32.to_bits())])),
        ]),
        Schema::Sequence(Box::new(test_enum_schema())),
    );
}

fn u64_seq(v: &[u64]) -> Value {
    Value::Sequence(v.iter().map(|x| Value::U64(*x)).collect())
}

#[test]
fn test_vec() {
    the_same(Value::Sequence(vec![]), Schema::Sequence(Box::new(Schema::U8)));
    the_same(u64_seq(&[1]), Schema::Sequence(Box::new(Schema::U64)));
    the_same(u64_seq(&[1, 2, 3, 4, 5, 6]), Schema::Sequence(Box::new(Schema::U64)));
}

#[test]
fn test_map() {
    the_same(
        Value::Mapping(vec![
            (Value::U64(4), s("foo")),
            (Value::U64(0), s("bar")),
            (Value::U64(1342), s("ahaha")),
        ]),
        Schema::Mapping(Box::new(Schema::U64), Box::new(Schema::Str)),
    );
}

#[test]
fn test_bool() {
    the_same(Value::Bool(true), Schema::Bool);
    the_same(Value::Bool(false), Schema::Bool);
}

#[test]
fn test_unicode() {
    the_same(s("å"), Schema::Str);
    the_same(s("aåååååååa"), Schema::Str);
}

#[test]
fn test_fixed_size_array() {
    the_same(
        Value::Tuple((0..32).map(|_| Value::U32(24)).collect()),
        Schema::Tuple((0..32).map(|_| Schema::U32).collect()),
    );
    the_same(
        Value::Tuple((1..=8).map(Value::U64).collect()),
        Schema::Tuple((1..=8).map(|_| Schema::U64).collect()),
    );
    the_same(
        Value::Tuple((0..19).map(|_| Value::U8(0)).collect()),
        Schema::Tuple((0..19).map(|_| Schema::U8).collect()),
    );
}

#[test]
fn encode_box() {
    the_same(Value::I32(5), Schema::I32);
}

fn u32_seq(v: &[u32]) -> Value {
    Value::Sequence(v.iter().map(|x| Value::U32(*x)).collect())
}

#[test]
fn test_cow_serialize() {
    let large_object = [1u32, 2, 3, 4, 5, 6];
    let message_schema = Schema::Enum(vec![
        Schema::Sequence(Box::new(Schema::U32)),
        Schema::Mapping(Box::new(Schema::U32), Box::new(Schema::U32)),
    ]);
    {
        let serialized = serialize_asc(&variant(0, u32_seq(&large_object))).unwrap();
        let deserialized = deserialize_asc(&serialized[..], &message_schema).unwrap();
        match deserialized {
            Value::Variant(0, b) => assert_eq!(*b, u32_seq(&large_object)),
            _ => panic!(),
        }
    }
    {
        let large_map = Value::Mapping(vec![(Value::U32(1), Value::U32(2))]);
        let serialized = serialize_asc(&variant(1, large_map)).unwrap();
        let deserialized = deserialize_asc(&serialized[..], &message_schema).unwrap();
        match deserialized {
            Value::Variant(1, b) => {
                assert_eq!(*b, Value::Mapping(vec![(Value::U32(1), Value::U32(2))]))
            }
            _ => panic!(),
        }
    }
}

#[test]
fn test_strbox_serialize_asc() {
    let strx: &'static str = "hello world";
    let serialized = serialize_asc(&s(strx)).unwrap();
    let deserialized = deserialize_asc(&serialized[..], &Schema::Str).unwrap();
    assert_eq!(deserialized, s(strx));
}

#[test]
fn test_strbox_serialize_desc() {
    let strx: &'static str = "hello world";
    let mut serialized = serialize_desc(&s(strx)).unwrap();
    let deserialized = deserialize_desc(serialized.as_mut_slice(), &Schema::Str).unwrap();
    assert_eq!(deserialized, s(strx));
}

#[test]
fn test_slicebox_serialize_asc() {
    let slice = [1u32, 2, 3, 4, 5];
    let serialized = serialize_asc(&u32_seq(&slice)).unwrap();
    let deserialized =
        deserialize_asc(&serialized[..], &Schema::Sequence(Box::new(Schema::U32))).unwrap();
    assert_eq!(deserialized, u32_seq(&slice));
    assert_eq!(serialized.len(), 1 + 5 * 4);
}

#[test]
fn test_slicebox_serialize_desc() {
    let slice = [1u32, 2, 3, 4, 5];
    let mut serialized = serialize_desc(&u32_seq(&slice)).unwrap();
    let deserialized =
        deserialize_desc(serialized.as_mut_slice(), &Schema::Sequence(Box::new(Schema::U32)))
            .unwrap();
    assert_eq!(deserialized, u32_seq(&slice));
    assert_eq!(serialized.len(), 1 + 5 * 4);
}

#[test]
fn test_multi_strings() {
    assert!(serialize_asc(&Value::Tuple(vec![s("foo"), s("bar"), s("baz")])).is_ok());
}

#[test]
fn path_buf_asc() {
    let path = s("foo");
    let serde_encoded = serialize_asc(&path).unwrap();
    let decoded = deserialize_asc(&serde_encoded, &Schema::Str).unwrap();
    assert_eq!(path, decoded);
}

#[test]
fn path_buf_desc() {
    let path = s("foo");
    let mut serde_encoded = serialize_desc(&path).unwrap();
    let decoded = deserialize_desc(serde_encoded.as_mut_slice(), &Schema::Str).unwrap();
    assert_eq!(path, decoded);
}

#[test]
fn serde_bytes() {
    the_same(Value::Bytes(vec![1, 2, 3, 4, 5]), Schema::Bytes);
}

#[test]
fn test_vec_parse() {
    let f = Value::Tuple(vec![
        s("hi"),
        Value::Sequence(vec![Value::U8(0), Value::U8(1), Value::U8(2), Value::U8(3)]),
    ]);
    let schema = Schema::Tuple(vec![Schema::Str, Schema::Sequence(Box::new(Schema::U8))]);
    let mut encoded = serialize_desc(&f).unwrap();
    let out = deserialize_desc(encoded.as_mut_slice(), &schema).unwrap();
    assert_eq!(out, f);
}

#[test]
fn test_byteseq() {
    let mut v = vec![];
    for j in 0..255 {
        for i in 0..255 {
            v.push(Value::U8((i ^ j) as u8));
        }
    }
    the_same(Value::Sequence(v), Schema::Sequence(Box::new(Schema::U8)));
}
