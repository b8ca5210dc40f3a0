//! Structured values, their schemas, and their encoding.
//!
//! A `Value` is what the serializer walks: primitives, byte and text strings, options, unit,
//! sequences, maps, tuples (also structs and tuple structs) and enum variants. A `Schema` is
//! what the deserializer is driven by, since the format does not describe itself.
use vstd::prelude::*;
use vstd::utf8::encode_utf8;
use crate::params::Order;
use crate::ordering::lemma_be_len;
use crate::primitives::{float_enc, int_enc, raw};
use crate::varint::{
    law_varu32_round_trip, law_varu64_round_trip, tail_form, varu32_enc, varu32_len, varu64_enc,
    varu64_len,
};

verus! {

broadcast use vstd::seq::axiom_seq_index_decreases, vstd::std_specs::vec::axiom_vec_decreases_to_view;

/// A structured value
#[derive(Debug, PartialEq)]
pub enum Value {
    Bool(bool),
    U8(u8),
    U16(u16),
    U32(u32),
    U64(u64),
    U128(u128),
    I8(i8),
    I16(i16),
    I32(i32),
    I64(i64),
    I128(i128),
    /// An `f32` by its bit pattern
    F32(u32),
    /// An `f64` by its bit pattern
    F64(u64),
    Char(char),
    Bytes(Vec<u8>),
    Str(String),
    Unit,
    Opt(Option<Box<Value>>),
    /// A variable-length sequence
    Sequence(Vec<Value>),
    /// A map, as its entries
    Mapping(Vec<(Value, Value)>),
    /// A tuple, tuple struct or struct: its fields in declaration order
    Tuple(Vec<Value>),
    /// An enum variant by index, with its payload (`Unit`, one value, or a `Tuple` of fields)
    Variant(u32, Box<Value>),
}

/// The shape of a value, which drives deserialization
#[derive(Debug, PartialEq)]
pub enum Schema {
    Bool,
    U8,
    U16,
    U32,
    U64,
    U128,
    I8,
    I16,
    I32,
    I64,
    I128,
    F32,
    F64,
    Char,
    Bytes,
    Str,
    Unit,
    Opt(Box<Schema>),
    Sequence(Box<Schema>),
    Mapping(Box<Schema>, Box<Schema>),
    Tuple(Vec<Schema>),
    /// An enum: the payload schema of each variant, by index
    Enum(Vec<Schema>),
}

/// How a serializer lays out values: its ordering, whether integers are little-endian,
/// whether float bit patterns are masked (big-endian layout), and whether lengths and
/// discriminants go to the tail.
#[derive(Debug, Clone, Copy)]
pub struct Format {
    pub order: Order,
    pub little: bool,
    pub masked: bool,
    pub at_tail: bool,
}

/// Head and tail bytes of one value written after another: heads follow each other, and a
/// later tail stands before an earlier one.
pub open spec fn join(a: (Seq<u8>, Seq<u8>), b: (Seq<u8>, Seq<u8>)) -> (Seq<u8>, Seq<u8>) {
    (a.0 + b.0, b.1 + a.1)
}

/// Bytes of a sequence length.
pub open spec fn len_parts(n: nat, f: Format) -> (Seq<u8>, Seq<u8>) {
    if f.at_tail {
        (Seq::empty(), tail_form(varu64_enc(n as u64)))
    } else {
        (varu64_enc(n as u64), Seq::empty())
    }
}

/// Bytes of an enum discriminant.
pub open spec fn discr_parts(idx: u32, f: Format) -> (Seq<u8>, Seq<u8>) {
    if f.at_tail {
        (Seq::empty(), tail_form(varu32_enc(idx)))
    } else {
        (varu32_enc(idx), Seq::empty())
    }
}

/// Bytes of a primitive value.
pub open spec fn prim_bytes(v: Value, f: Format) -> Seq<u8> {
    match v {
        Value::Bool(b) => int_enc(if b { 1 } else { 0 }, 1, false, f.order, f.little),
        Value::U8(x) => int_enc(x as int, 1, false, f.order, f.little),
        Value::U16(x) => int_enc(x as int, 2, false, f.order, f.little),
        Value::U32(x) => int_enc(x as int, 4, false, f.order, f.little),
        Value::U64(x) => int_enc(x as int, 8, false, f.order, f.little),
        Value::U128(x) => int_enc(x as int, 16, false, f.order, f.little),
        Value::I8(x) => int_enc(x as int, 1, true, f.order, f.little),
        Value::I16(x) => int_enc(x as int, 2, true, f.order, f.little),
        Value::I32(x) => int_enc(x as int, 4, true, f.order, f.little),
        Value::I64(x) => int_enc(x as int, 8, true, f.order, f.little),
        Value::I128(x) => int_enc(x as int, 16, true, f.order, f.little),
        Value::F32(x) => float_enc(x as nat, 4, f.order, f.masked, f.little),
        Value::F64(x) => float_enc(x as nat, 8, f.order, f.masked, f.little),
        Value::Char(c) => int_enc(c as u32 as int, 4, false, f.order, f.little),
        _ => Seq::empty(),
    }
}

/// Head and tail bytes that serializing `v` writes.
pub open spec fn parts(v: Value, f: Format) -> (Seq<u8>, Seq<u8>)
    decreases v,
{
    match v {
        Value::Bytes(b) => join(len_parts(b@.len(), f), (b@, Seq::empty())),
        Value::Str(s) => join(len_parts(encode_utf8(s@).len(), f), (encode_utf8(s@), Seq::empty())),
        Value::Unit => (Seq::empty(), Seq::empty()),
        Value::Opt(o) => match o {
            Option::None => (int_enc(0, 1, false, f.order, f.little), Seq::empty()),
            Option::Some(x) => join((int_enc(1, 1, false, f.order, f.little), Seq::empty()), parts(*x, f)),
        },
        Value::Sequence(items) => join(len_parts(items@.len(), f), list_parts(items@, f)),
        Value::Mapping(entries) => join(len_parts(entries@.len(), f), entry_parts(entries@, f)),
        Value::Tuple(items) => list_parts(items@, f),
        Value::Variant(idx, x) => join(discr_parts(idx, f), parts(*x, f)),
        _ => (prim_bytes(v, f), Seq::empty()),
    }
}

/// Head and tail bytes of values written one after another.
pub open spec fn list_parts(items: Seq<Value>, f: Format) -> (Seq<u8>, Seq<u8>)
    decreases items,
{
    if items.len() == 0 {
        (Seq::empty(), Seq::empty())
    } else {
        join(parts(items[0], f), list_parts(items.drop_first(), f))
    }
}

/// Head and tail bytes of map entries written one after another, key before value.
pub open spec fn entry_parts(entries: Seq<(Value, Value)>, f: Format) -> (Seq<u8>, Seq<u8>)
    decreases entries,
{
    if entries.len() == 0 {
        (Seq::empty(), Seq::empty())
    } else {
        join(join(parts(entries[0].0, f), parts(entries[0].1, f)), entry_parts(entries.drop_first(), f))
    }
}

/// Serialized size of a primitive value: the size of its type.
pub open spec fn prim_size(v: Value) -> nat {
    match v {
        Value::Bool(_) | Value::U8(_) | Value::I8(_) => 1,
        Value::U16(_) | Value::I16(_) => 2,
        Value::U32(_) | Value::I32(_) | Value::F32(_) | Value::Char(_) => 4,
        Value::U64(_) | Value::I64(_) | Value::F64(_) => 8,
        Value::U128(_) | Value::I128(_) => 16,
        _ => 0,
    }
}

/// Serialized size of `v`: the size of each primitive, a length's varint and the bytes of a
/// string, one byte for an option tag and the size of what is present, nothing for unit, a
/// length's varint and the sizes of the elements for sequences and maps, a discriminant's
/// varint and the size of the payload for enum variants.
pub open spec fn value_size(v: Value) -> nat
    decreases v,
{
    match v {
        Value::Bytes(b) => varu64_len(b@.len()) + b@.len(),
        Value::Str(s) => varu64_len(encode_utf8(s@).len()) + encode_utf8(s@).len(),
        Value::Unit => 0,
        Value::Opt(o) => match o {
            Option::None => 1,
            Option::Some(x) => 1 + value_size(*x),
        },
        Value::Sequence(items) => varu64_len(items@.len()) + list_size(items@),
        Value::Mapping(entries) => varu64_len(entries@.len()) + entry_size(entries@),
        Value::Tuple(items) => list_size(items@),
        Value::Variant(idx, x) => varu32_len(idx as nat) + value_size(*x),
        _ => prim_size(v),
    }
}

/// Serialized size of values written one after another.
pub open spec fn list_size(items: Seq<Value>) -> nat
    decreases items,
{
    if items.len() == 0 {
        0
    } else {
        value_size(items[0]) + list_size(items.drop_first())
    }
}

/// Serialized size of map entries.
pub open spec fn entry_size(entries: Seq<(Value, Value)>) -> nat
    decreases entries,
{
    if entries.len() == 0 {
        0
    } else {
        value_size(entries[0].0) + value_size(entries[0].1) + entry_size(entries.drop_first())
    }
}

/// Total length of head and tail bytes.
pub open spec fn parts_len(p: (Seq<u8>, Seq<u8>)) -> nat {
    p.0.len() + p.1.len()
}

proof fn lemma_raw_len(k: nat, n: nat, order: Order, little: bool)
    ensures
        crate::ordering::ordered(raw(k, n, little), order).len() == n,
{
    lemma_be_len(k, n);
}

proof fn lemma_len_parts(n: nat, f: Format)
    requires
        n < 0x1_0000_0000_0000_0000,
    ensures
        parts_len(len_parts(n, f)) == varu64_len(n),
{
    law_varu64_round_trip(n as u64, Seq::empty());
}

proof fn lemma_discr_parts(idx: u32, f: Format)
    ensures
        parts_len(discr_parts(idx, f)) == varu32_len(idx as nat),
{
    law_varu32_round_trip(idx, Seq::empty());
}

/// Size exactness: the size of a value is the number of bytes that serializing it writes,
/// head and tail together, in every format (for values whose size is a 64-bit number).
pub proof fn law_size_exact(v: Value, f: Format)
    requires
        value_size(v) < 0x1_0000_0000_0000_0000,
    ensures
        value_size(v) == parts_len(parts(v, f)),
    decreases v,
{
    match v {
        Value::Bytes(b) => lemma_len_parts(b@.len(), f),
        Value::Str(s) => lemma_len_parts(encode_utf8(s@).len(), f),
        Value::Unit => {},
        Value::Opt(o) => {
            lemma_raw_len(if o is Some { 1 } else { 0 }, 1, f.order, f.little);
            match o {
                Option::None => {},
                Option::Some(x) => law_size_exact(*x, f),
            }
        },
        Value::Sequence(items) => {
            assert(items@.len() == items.len());
            lemma_len_parts(items@.len(), f);
            law_list_size_exact(items@, f);
        },
        Value::Mapping(entries) => {
            assert(entries@.len() == entries.len());
            lemma_len_parts(entries@.len(), f);
            law_entry_size_exact(entries@, f);
        },
        Value::Tuple(items) => law_list_size_exact(items@, f),
        Value::Variant(idx, x) => {
            lemma_discr_parts(idx, f);
            law_size_exact(*x, f);
        },
        Value::Bool(b) => lemma_raw_len(if b { 1 } else { 0 }, 1, f.order, f.little),
        Value::U8(x) => lemma_raw_len(x as nat, 1, f.order, f.little),
        Value::U16(x) => lemma_raw_len(x as nat, 2, f.order, f.little),
        Value::U32(x) => lemma_raw_len(x as nat, 4, f.order, f.little),
        Value::U64(x) => lemma_raw_len(x as nat, 8, f.order, f.little),
        Value::U128(x) => lemma_raw_len(x as nat, 16, f.order, f.little),
        Value::I8(x) => lemma_raw_len(crate::primitives::int_key(x as int, 1, true), 1, f.order, f.little),
        Value::I16(x) => lemma_raw_len(crate::primitives::int_key(x as int, 2, true), 2, f.order, f.little),
        Value::I32(x) => lemma_raw_len(crate::primitives::int_key(x as int, 4, true), 4, f.order, f.little),
        Value::I64(x) => lemma_raw_len(crate::primitives::int_key(x as int, 8, true), 8, f.order, f.little),
        Value::I128(x) => lemma_raw_len(crate::primitives::int_key(x as int, 16, true), 16, f.order, f.little),
        Value::F32(x) => lemma_raw_len(crate::primitives::float_key(x as nat, 4, f.masked), 4, f.order, f.little),
        Value::F64(x) => lemma_raw_len(crate::primitives::float_key(x as nat, 8, f.masked), 8, f.order, f.little),
        Value::Char(c) => lemma_raw_len(c as u32 as nat, 4, f.order, f.little),
    }
}

/// Size exactness for values written one after another.
pub proof fn law_list_size_exact(items: Seq<Value>, f: Format)
    requires
        list_size(items) < 0x1_0000_0000_0000_0000,
    ensures
        list_size(items) == parts_len(list_parts(items, f)),
    decreases items,
{
    if items.len() > 0 {
        law_size_exact(items[0], f);
        law_list_size_exact(items.drop_first(), f);
    }
}

/// Size exactness for map entries.
pub proof fn law_entry_size_exact(entries: Seq<(Value, Value)>, f: Format)
    requires
        entry_size(entries) < 0x1_0000_0000_0000_0000,
    ensures
        entry_size(entries) == parts_len(entry_parts(entries, f)),
    decreases entries,
{
    if entries.len() > 0 {
        law_size_exact(entries[0].0, f);
        law_size_exact(entries[0].1, f);
        law_entry_size_exact(entries.drop_first(), f);
    }
}

pub proof fn lemma_join_assoc(a: (Seq<u8>, Seq<u8>), b: (Seq<u8>, Seq<u8>), c: (Seq<u8>, Seq<u8>))
    ensures
        join(join(a, b), c) == join(a, join(b, c)),
{
    assert(join(join(a, b), c).0 =~= join(a, join(b, c)).0);
    assert(join(join(a, b), c).1 =~= join(a, join(b, c)).1);
}

proof fn lemma_join_empty(a: (Seq<u8>, Seq<u8>))
    ensures
        join(a, (Seq::empty(), Seq::empty())) == a,
        join((Seq::empty(), Seq::empty()), a) == a,
{
    assert(join(a, (Seq::empty(), Seq::empty())).0 =~= a.0);
    assert(join(a, (Seq::empty(), Seq::empty())).1 =~= a.1);
    assert(join((Seq::empty(), Seq::empty()), a).0 =~= a.0);
    assert(join((Seq::empty(), Seq::empty()), a).1 =~= a.1);
}

/// Writing one more value after a list.
pub proof fn lemma_list_parts_push(items: Seq<Value>, x: Value, f: Format)
    ensures
        list_parts(items.push(x), f) == join(list_parts(items, f), parts(x, f)),
    decreases items.len(),
{
    if items.len() == 0 {
        assert(items.push(x).drop_first() =~= Seq::<Value>::empty());
        assert(items.push(x)[0] == x);
        assert(list_parts(items.push(x).drop_first(), f) == (Seq::<u8>::empty(), Seq::<u8>::empty()));
        assert(list_parts(items, f) == (Seq::<u8>::empty(), Seq::<u8>::empty()));
        lemma_join_empty(parts(x, f));
    } else {
        assert(items.push(x).drop_first() =~= items.drop_first().push(x));
        assert(items.push(x)[0] == items[0]);
        lemma_list_parts_push(items.drop_first(), x, f);
        lemma_join_assoc(parts(items[0], f), list_parts(items.drop_first(), f), parts(x, f));
    }
}

/// Writing one more entry after a list of map entries.
pub proof fn lemma_entry_parts_push(entries: Seq<(Value, Value)>, e: (Value, Value), f: Format)
    ensures
        entry_parts(entries.push(e), f) == join(entry_parts(entries, f), join(parts(e.0, f), parts(e.1, f))),
    decreases entries.len(),
{
    let pe = join(parts(e.0, f), parts(e.1, f));
    if entries.len() == 0 {
        assert(entries.push(e).drop_first() =~= Seq::<(Value, Value)>::empty());
        assert(entries.push(e)[0] == e);
        assert(entry_parts(entries.push(e).drop_first(), f) == (Seq::<u8>::empty(), Seq::<u8>::empty()));
        assert(entry_parts(entries, f) == (Seq::<u8>::empty(), Seq::<u8>::empty()));
        lemma_join_empty(pe);
    } else {
        assert(entries.push(e).drop_first() =~= entries.drop_first().push(e));
        assert(entries.push(e)[0] == entries[0]);
        lemma_entry_parts_push(entries.drop_first(), e, f);
        lemma_join_assoc(join(parts(entries[0].0, f), parts(entries[0].1, f)), entry_parts(entries.drop_first(), f), pe);
    }
}

proof fn lemma_list_parts_concat(a: Seq<Value>, b: Seq<Value>, f: Format)
    ensures
        list_parts(a + b, f) == join(list_parts(a, f), list_parts(b, f)),
    decreases a.len(),
{
    if a.len() == 0 {
        assert(a + b =~= b);
        lemma_join_empty(list_parts(b, f));
    } else {
        assert((a + b).drop_first() =~= a.drop_first() + b);
        assert((a + b)[0] == a[0]);
        lemma_list_parts_concat(a.drop_first(), b, f);
        lemma_join_assoc(parts(a[0], f), list_parts(a.drop_first(), f), list_parts(b, f));
    }
}

/// The bytes of a list are at least those of its first `i + 1` values.
pub proof fn lemma_list_parts_split(items: Seq<Value>, i: int, f: Format)
    requires
        0 <= i < items.len(),
    ensures
        parts_len(list_parts(items, f)) >= parts_len(list_parts(items.subrange(0, i + 1), f)),
{
    assert(items =~= items.subrange(0, i + 1) + items.subrange(i + 1, items.len() as int));
    lemma_list_parts_concat(items.subrange(0, i + 1), items.subrange(i + 1, items.len() as int), f);
}

proof fn lemma_entry_parts_concat(a: Seq<(Value, Value)>, b: Seq<(Value, Value)>, f: Format)
    ensures
        entry_parts(a + b, f) == join(entry_parts(a, f), entry_parts(b, f)),
    decreases a.len(),
{
    if a.len() == 0 {
        assert(a + b =~= b);
        lemma_join_empty(entry_parts(b, f));
    } else {
        assert((a + b).drop_first() =~= a.drop_first() + b);
        assert((a + b)[0] == a[0]);
        lemma_entry_parts_concat(a.drop_first(), b, f);
        lemma_join_assoc(join(parts(a[0].0, f), parts(a[0].1, f)), entry_parts(a.drop_first(), f), entry_parts(b, f));
    }
}

/// The bytes of map entries are at least those of the first `i + 1` entries.
pub proof fn lemma_entry_parts_split(entries: Seq<(Value, Value)>, i: int, f: Format)
    requires
        0 <= i < entries.len(),
    ensures
        parts_len(entry_parts(entries, f)) >= parts_len(entry_parts(entries.subrange(0, i + 1), f)),
{
    assert(entries =~= entries.subrange(0, i + 1) + entries.subrange(i + 1, entries.len() as int));
    lemma_entry_parts_concat(entries.subrange(0, i + 1), entries.subrange(i + 1, entries.len() as int), f);
}

/// Whether `v` has the shape `s`.
pub open spec fn conforms(v: Value, s: Schema) -> bool
    decreases v,
{
    match v {
        Value::Bool(_) => s is Bool,
        Value::U8(_) => s is U8,
        Value::U16(_) => s is U16,
        Value::U32(_) => s is U32,
        Value::U64(_) => s is U64,
        Value::U128(_) => s is U128,
        Value::I8(_) => s is I8,
        Value::I16(_) => s is I16,
        Value::I32(_) => s is I32,
        Value::I64(_) => s is I64,
        Value::I128(_) => s is I128,
        Value::F32(_) => s is F32,
        Value::F64(_) => s is F64,
        Value::Char(_) => s is Char,
        Value::Bytes(_) => s is Bytes,
        Value::Str(_) => s is Str,
        Value::Unit => s is Unit,
        Value::Opt(o) => s is Opt && match o {
            Option::None => true,
            Option::Some(x) => conforms(*x, *s->Opt_0),
        },
        Value::Sequence(items) => s is Sequence && all_conform(items@, *s->Sequence_0),
        Value::Mapping(entries) => s is Mapping && entries_conform(entries@, *s->Mapping_0, *s->Mapping_1),
        Value::Tuple(items) => s is Tuple && fields_conform(items@, s->Tuple_0@),
        Value::Variant(idx, x) => s is Enum && idx < s->Enum_0@.len() && conforms(*x, s->Enum_0@[idx as int]),
    }
}

/// Whether every value of `items` has the shape `s`.
pub open spec fn all_conform(items: Seq<Value>, s: Schema) -> bool
    decreases items,
{
    items.len() == 0 || (conforms(items[0], s) && all_conform(items.drop_first(), s))
}

/// Whether the values of `items` have the shapes of `ss`, one for one.
pub open spec fn fields_conform(items: Seq<Value>, ss: Seq<Schema>) -> bool
    decreases items,
{
    items.len() == ss.len() && (items.len() == 0 || (conforms(items[0], ss[0]) && fields_conform(
        items.drop_first(),
        ss.drop_first(),
    )))
}

/// Whether every entry of `entries` has key shape `k` and value shape `s`.
pub open spec fn entries_conform(entries: Seq<(Value, Value)>, k: Schema, s: Schema) -> bool
    decreases entries,
{
    entries.len() == 0 || (conforms(entries[0].0, k) && conforms(entries[0].1, s) && entries_conform(
        entries.drop_first(),
        k,
        s,
    ))
}

pub proof fn lemma_all_conform_push(items: Seq<Value>, x: Value, s: Schema)
    requires
        all_conform(items, s),
        conforms(x, s),
    ensures
        all_conform(items.push(x), s),
    decreases items.len(),
{
    if items.len() == 0 {
        assert(items.push(x).drop_first() =~= Seq::<Value>::empty());
        assert(items.push(x)[0] == x);
        assert(all_conform(items.push(x).drop_first(), s));
    } else {
        assert(items.push(x).drop_first() =~= items.drop_first().push(x));
        assert(items.push(x)[0] == items[0]);
        lemma_all_conform_push(items.drop_first(), x, s);
    }
}

pub proof fn lemma_fields_conform_push(items: Seq<Value>, ss: Seq<Schema>, x: Value, t: Schema)
    requires
        fields_conform(items, ss),
        conforms(x, t),
    ensures
        fields_conform(items.push(x), ss.push(t)),
    decreases items.len(),
{
    if items.len() == 0 {
        assert(items.push(x).drop_first() =~= Seq::<Value>::empty());
        assert(ss.push(t).drop_first() =~= Seq::<Schema>::empty());
        assert(items.push(x)[0] == x && ss.push(t)[0] == t);
        assert(ss.len() == 0);
        assert(fields_conform(items.push(x).drop_first(), ss.push(t).drop_first()));
    } else {
        assert(items.push(x).drop_first() =~= items.drop_first().push(x));
        assert(ss.push(t).drop_first() =~= ss.drop_first().push(t));
        assert(items.push(x)[0] == items[0] && ss.push(t)[0] == ss[0]);
        lemma_fields_conform_push(items.drop_first(), ss.drop_first(), x, t);
    }
}

pub proof fn lemma_entries_conform_push(entries: Seq<(Value, Value)>, e: (Value, Value), k: Schema, s: Schema)
    requires
        entries_conform(entries, k, s),
        conforms(e.0, k),
        conforms(e.1, s),
    ensures
        entries_conform(entries.push(e), k, s),
    decreases entries.len(),
{
    if entries.len() == 0 {
        assert(entries.push(e).drop_first() =~= Seq::<(Value, Value)>::empty());
        assert(entries.push(e)[0] == e);
        assert(entries_conform(entries.push(e).drop_first(), k, s));
    } else {
        assert(entries.push(e).drop_first() =~= entries.drop_first().push(e));
        assert(entries.push(e)[0] == entries[0]);
        lemma_entries_conform_push(entries.drop_first(), e, k, s);
    }
}

/// A char value has the char shape, and its bytes are those of its code point.
pub proof fn lemma_char_value(c: char, f: Format)
    ensures
        conforms(Value::Char(c), Schema::Char),
        parts(Value::Char(c), f) == (prim_bytes(Value::Char(c), f), Seq::<u8>::empty()),
        prim_bytes(Value::Char(c), f).len() == 4,
{
    lemma_raw_len(c as u32 as nat, 4, f.order, f.little);
}

/// The bytes of a fixed-width primitive: as many as its type has, all at the head.
pub proof fn lemma_prim_parts(v: Value, f: Format)
    requires
        prim_size(v) > 0,
        !(v is Char),
    ensures
        parts(v, f) == (prim_bytes(v, f), Seq::<u8>::empty()),
        prim_bytes(v, f).len() == prim_size(v),
{
    law_size_exact(v, f);
}

proof fn lemma_list_size_concat(a: Seq<Value>, b: Seq<Value>)
    ensures
        list_size(a + b) == list_size(a) + list_size(b),
    decreases a.len(),
{
    if a.len() == 0 {
        assert(a + b =~= b);
    } else {
        assert((a + b).drop_first() =~= a.drop_first() + b);
        assert((a + b)[0] == a[0]);
        lemma_list_size_concat(a.drop_first(), b);
    }
}

/// Sizes of a list: one more value adds its size, and a prefix is no larger than the list.
pub proof fn lemma_list_size_push(items: Seq<Value>, i: int)
    requires
        0 <= i < items.len(),
    ensures
        list_size(items.subrange(0, i + 1)) == list_size(items.subrange(0, i)) + value_size(items[i]),
        list_size(items) >= list_size(items.subrange(0, i + 1)),
{
    let x = items[i];
    assert(items.subrange(0, i + 1) =~= items.subrange(0, i) + seq![x]);
    lemma_list_size_concat(items.subrange(0, i), seq![x]);
    assert(seq![x].drop_first() =~= Seq::<Value>::empty());
    assert(seq![x][0] == x);
    assert(list_size(seq![x].drop_first()) == 0);
    assert(list_size(seq![x]) == value_size(x));
    assert(items =~= items.subrange(0, i + 1) + items.subrange(i + 1, items.len() as int));
    lemma_list_size_concat(items.subrange(0, i + 1), items.subrange(i + 1, items.len() as int));
}

proof fn lemma_entry_size_concat(a: Seq<(Value, Value)>, b: Seq<(Value, Value)>)
    ensures
        entry_size(a + b) == entry_size(a) + entry_size(b),
    decreases a.len(),
{
    if a.len() == 0 {
        assert(a + b =~= b);
    } else {
        assert((a + b).drop_first() =~= a.drop_first() + b);
        assert((a + b)[0] == a[0]);
        lemma_entry_size_concat(a.drop_first(), b);
    }
}

/// Sizes of map entries: one more entry adds its key's and value's sizes, and a prefix is no
/// larger than all entries.
pub proof fn lemma_entry_size_push(entries: Seq<(Value, Value)>, i: int)
    requires
        0 <= i < entries.len(),
    ensures
        entry_size(entries.subrange(0, i + 1)) == entry_size(entries.subrange(0, i)) + value_size(entries[i].0)
            + value_size(entries[i].1),
        entry_size(entries) >= entry_size(entries.subrange(0, i + 1)),
{
    let x = entries[i];
    assert(entries.subrange(0, i + 1) =~= entries.subrange(0, i) + seq![x]);
    lemma_entry_size_concat(entries.subrange(0, i), seq![x]);
    assert(seq![x].drop_first() =~= Seq::<(Value, Value)>::empty());
    assert(seq![x][0] == x);
    assert(entry_size(seq![x].drop_first()) == 0);
    assert(entry_size(seq![x]) == value_size(x.0) + value_size(x.1));
    assert(entries =~= entries.subrange(0, i + 1) + entries.subrange(i + 1, entries.len() as int));
    lemma_entry_size_concat(entries.subrange(0, i + 1), entries.subrange(i + 1, entries.len() as int));
}

/// Whether `v` and `w` are the same value: the same shape and numbers, byte strings and text
/// equal as sequences, and parts pairwise the same.
pub open spec fn equiv(v: Value, w: Value) -> bool
    decreases v,
{
    match v {
        Value::Bytes(b) => w is Bytes && b@ == w->Bytes_0@,
        Value::Str(t) => w is Str && t@ == w->Str_0@,
        Value::Opt(o) => w is Opt && match o {
            Option::None => w->Opt_0 is None,
            Option::Some(x) => w->Opt_0 is Some && equiv(*x, *w->Opt_0.unwrap()),
        },
        Value::Sequence(items) => w is Sequence && equiv_list(items@, w->Sequence_0@),
        Value::Mapping(entries) => w is Mapping && equiv_entries(entries@, w->Mapping_0@),
        Value::Tuple(items) => w is Tuple && equiv_list(items@, w->Tuple_0@),
        Value::Variant(idx, x) => w is Variant && w->Variant_0 == idx && equiv(*x, *w->Variant_1),
        _ => v == w,
    }
}

/// Whether two lists of values are the same, element by element.
pub open spec fn equiv_list(a: Seq<Value>, b: Seq<Value>) -> bool
    decreases a,
{
    a.len() == b.len() && (a.len() == 0 || (equiv(a[0], b[0]) && equiv_list(a.drop_first(), b.drop_first())))
}

/// Whether two lists of map entries are the same, entry by entry.
pub open spec fn equiv_entries(a: Seq<(Value, Value)>, b: Seq<(Value, Value)>) -> bool
    decreases a,
{
    a.len() == b.len() && (a.len() == 0 || (equiv(a[0].0, b[0].0) && equiv(a[0].1, b[0].1)
        && equiv_entries(a.drop_first(), b.drop_first())))
}

/// Parts written after the same parts can be told apart.
pub proof fn lemma_join_cancel(p: (Seq<u8>, Seq<u8>), a: (Seq<u8>, Seq<u8>), b: (Seq<u8>, Seq<u8>))
    requires
        join(p, a) == join(p, b),
    ensures
        a == b,
{
    let j = join(p, a);
    assert(a.0 =~= j.0.subrange(p.0.len() as int, j.0.len() as int));
    assert(b.0 =~= j.0.subrange(p.0.len() as int, j.0.len() as int));
    assert(a.1 =~= j.1.subrange(0, j.1.len() - p.1.len()));
    assert(b.1 =~= j.1.subrange(0, j.1.len() - p.1.len()));
}

} // verus!
