//! Fast, prefix-free binary encoding which preserves the lexicographical ordering of values.
//!
//! Intended for keys and values of ordered key-value stores:
//!
//! * encodings in both ascending and descending lexicographical order
//! * lengths of variable-size sequences go to the end of the serialized data, so that the
//!   encoding is prefix-free and friendly to lexicographical ordering
//! * the exact size of serialized data is cheap to compute beforehand
//! * space-efficient varint encoding for sequence lengths and discriminants
//!
//! Descending order is ascending order with every byte inverted: the whole output buffer is
//! complemented after serialization.
use vstd::prelude::*;

pub mod errors;
pub mod params;
pub mod buf;
pub mod ordering;
pub mod primitives;
pub mod bytes_esc;
pub mod varint;
pub mod value;
pub mod ord_ser;
pub mod ord_de;
pub mod size_calc;

pub use errors::Error;
pub use params::Order;
pub use buf::{DeBytesReader, DeBytesWriter};
pub use ord_ser::Serializer;
pub use ord_de::Deserializer;
pub use value::{Schema, Value};

use crate::ordering::{complement, ordered};
use crate::params::{AscendingOrder, NativeBinary, PortableBinary, SerializerParams};
use crate::size_calc::SizeCalc;
use crate::ord_de::sdec;
use crate::value::{Format, conforms, law_size_exact, parts, parts_len, value_size};

verus! {

/// Current version of the data format of a serializer with parameters `P`.
pub trait FormatVersion<P: SerializerParams> {
    fn version() -> (r: u32)
        ensures
            r == 1,
    ;
}

impl<'a> FormatVersion<AscendingOrder> for Serializer<'a, AscendingOrder> {
    fn version() -> (r: u32) {
        1
    }
}

impl<'a> FormatVersion<PortableBinary> for Serializer<'a, PortableBinary> {
    fn version() -> (r: u32) {
        1
    }
}

impl<'a> FormatVersion<NativeBinary> for Serializer<'a, NativeBinary> {
    fn version() -> (r: u32) {
        1
    }
}

/// The layout of `AscendingOrder`: ascending, big-endian, lengths and discriminants at the tail.
pub open spec fn asc_format() -> Format {
    Format { order: Order::Ascending, little: false, masked: true, at_tail: true }
}

/// Exact size of the serialized value; `BufferOverflow` when it does not fit in `usize`
pub fn calc_size<P: SerializerParams>(value: &Value, _params: P) -> (r: Result<usize, Error>)
    ensures
        r is Ok <==> value_size(*value) <= usize::MAX,
        r is Ok ==> r.unwrap() == value_size(*value),
        r is Err ==> r == Err::<usize, Error>(Error::BufferOverflow),
{
    let mut sc = SizeCalc::<P>::new();
    match sc.add_value(value) {
        Ok(()) => Ok(sc.size()),
        Err(e) => Err(e),
    }
}

/// Same as `calc_size`, with `AscendingOrder`
pub fn calc_size_asc(value: &Value) -> (r: Result<usize, Error>)
    ensures
        r is Ok <==> value_size(*value) <= usize::MAX,
        r is Ok ==> r.unwrap() == value_size(*value),
        r is Err ==> r == Err::<usize, Error>(Error::BufferOverflow),
{
    calc_size(value, AscendingOrder)
}

/// New serializer with `AscendingOrder`
pub fn new_ser_asc<'a>(writer: DeBytesWriter<'a>) -> (r: Serializer<'a, AscendingOrder>)
    ensures
        r.writer == writer,
        r.fmt == asc_format(),
{
    Serializer::new(writer, AscendingOrder)
}

/// New deserializer with `AscendingOrder`
pub fn new_de_asc<'a>(reader: DeBytesReader<'a>) -> (r: Deserializer<'a, AscendingOrder>)
    ensures
        r.reader@ == reader@,
        r.fmt == asc_format(),
{
    Deserializer::new(reader, AscendingOrder)
}

/// Serialize `value` into the start of `buf`, which must be large enough (`calc_size` tells
/// how large); returns the size of the serialized data
///
/// For `Descending` order the serialized data is inverted afterwards.
pub fn ser_to_buf_ordered(buf: &mut [u8], value: &Value, order: Order) -> (r: Result<usize, Error>)
    ensures
        final(buf)@.len() == old(buf)@.len(),
        r is Ok <==> parts_len(parts(*value, asc_format())) <= old(buf)@.len(),
        r is Ok ==> r.unwrap() == parts_len(parts(*value, asc_format()))
            && final(buf)@.subrange(0, r.unwrap() as int) == ordered(
            parts(*value, asc_format()).0 + parts(*value, asc_format()).1,
            order,
        ),
        r is Err ==> r == Err::<usize, Error>(Error::BufferOverflow),
{
    let mut ser = new_ser_asc(DeBytesWriter::new(buf));
    let r = ser.serialize_value(value);
    let mut w = ser.into_writer();
    match r {
        Ok(()) => {
            let len = match w.finalize() {
                Ok(n) => n,
                Err(e) => {
                    return Err(e);
                },
            };
            assert(Seq::<u8>::empty() + parts(*value, asc_format()).0 =~= parts(*value, asc_format()).0);
            assert(parts(*value, asc_format()).1 + Seq::<u8>::empty() =~= parts(*value, asc_format()).1);
            if order == Order::Descending {
                let ghost before = buf@;
                crate::primitives::invert_prefix(buf, len);
                assert(buf@.subrange(0, len as int) =~= complement(before.subrange(0, len as int)));
            }
            Ok(len)
        },
        Err(e) => Err(e),
    }
}

/// Serialize `value` into `buf`, which must be of the exact size (`calc_size` tells it)
///
/// A buffer too small gives `BufferOverflow`, one too large `BufferUnderflow`. On success the
/// head and tail of the buffer meet: it holds the head bytes followed by the tail bytes.
pub fn ser_to_buf_asc_exact(buf: &mut [u8], value: &Value) -> (r: Result<(), Error>)
    ensures
        final(buf)@.len() == old(buf)@.len(),
        r is Ok <==> parts_len(parts(*value, asc_format())) == old(buf)@.len(),
        r is Ok ==> final(buf)@ == parts(*value, asc_format()).0 + parts(*value, asc_format()).1,
        parts_len(parts(*value, asc_format())) > old(buf)@.len() ==> r == Err::<(), Error>(Error::BufferOverflow),
        parts_len(parts(*value, asc_format())) < old(buf)@.len() ==> r == Err::<(), Error>(Error::BufferUnderflow),
{
    let mut ser = new_ser_asc(DeBytesWriter::new(buf));
    let r = ser.serialize_value(value);
    let w = ser.into_writer();
    match r {
        Ok(()) => {
            let c = w.is_complete();
            proof {
                if c is Ok {
                    assert(w.buf@ =~= w.head_data() + w.tail_data());
                    assert(Seq::<u8>::empty() + parts(*value, asc_format()).0 =~= parts(*value, asc_format()).0);
                    assert(parts(*value, asc_format()).1 + Seq::<u8>::empty() =~= parts(*value, asc_format()).1);
                }
            }
            c
        },
        Err(e) => Err(e),
    }
}

/// Serialize `value` into a new vector of its exact size
pub fn ser_to_vec_ordered(value: &Value, order: Order) -> (r: Result<Vec<u8>, Error>)
    ensures
        r is Ok <==> value_size(*value) <= usize::MAX,
        r is Ok ==> r.unwrap()@ == ordered(parts(*value, asc_format()).0 + parts(*value, asc_format()).1, order),
        r is Err ==> r == Err::<Vec<u8>, Error>(Error::BufferOverflow),
{
    let size = match calc_size(value, AscendingOrder) {
        Ok(n) => n,
        Err(e) => {
            return Err(e);
        },
    };
    proof {
        law_size_exact(*value, asc_format());
    }
    let mut byte_buf: Vec<u8> = vec![0u8; size];
    match ser_to_buf_asc_exact(byte_buf.as_mut_slice(), value) {
        Ok(()) => {},
        Err(e) => {
            return Err(e);
        },
    }
    if order == Order::Descending {
        crate::primitives::invert_buffer(byte_buf.as_mut_slice());
    }
    Ok(byte_buf)
}

/// Deserialize a value of shape `schema` from bytes serialized with `AscendingOrder`
///
/// It succeeds exactly when the input holds a value of that shape (`sdec`, which holds of
/// every serialization: `law_encoding_decodes`), and otherwise fails with the first error that
/// `sdec` meets; on success the input starts with the head bytes of the value and ends with its
/// tail bytes, so that on a serialization of `v` the value returned is `v` (`law_round_trip`).
pub fn de_from_bytes_asc(input: &[u8], schema: &Schema) -> (r: Result<Value, Error>)
    ensures
        r is Ok <==> sdec(*schema, input@, asc_format()) is Ok,
        r is Err ==> sdec(*schema, input@, asc_format()) == Err::<(nat, nat), Error>(r->Err_0),
        r is Ok ==> conforms(r.unwrap(), *schema) && {
            let p = parts(r.unwrap(), asc_format());
            &&& parts_len(p) <= input@.len()
            &&& input@.subrange(0, p.0.len() as int) == p.0
            &&& input@.subrange(input@.len() - p.1.len(), input@.len() as int) == p.1
        },
{
    let mut de = new_de_asc(DeBytesReader::new(input));
    let r = de.deserialize_value(schema);
    proof {
        if r is Ok {
            let p = parts(r.unwrap(), asc_format());
            let rest = de.reader@;
            assert(input@ == p.0 + rest + p.1);
            assert(input@.subrange(0, p.0.len() as int) =~= p.0);
            assert(input@.subrange(input@.len() - p.1.len(), input@.len() as int) =~= p.1);
        }
    }
    r
}

/// Deserialize a value of shape `schema` from bytes serialized in `order`; for `Descending`
/// the input is inverted in place first
pub fn de_from_bytes_ordered(input: &mut [u8], schema: &Schema, order: Order) -> (r: Result<Value, Error>)
    ensures
        final(input)@ == ordered(old(input)@, order),
        r is Ok <==> sdec(*schema, final(input)@, asc_format()) is Ok,
        r is Err ==> sdec(*schema, final(input)@, asc_format()) == Err::<(nat, nat), Error>(r->Err_0),
        r is Ok ==> conforms(r.unwrap(), *schema) && {
            let p = parts(r.unwrap(), asc_format());
            let s = final(input)@;
            &&& parts_len(p) <= s.len()
            &&& s.subrange(0, p.0.len() as int) == p.0
            &&& s.subrange(s.len() - p.1.len(), s.len() as int) == p.1
        },
{
    if order == Order::Descending {
        crate::primitives::invert_buffer(input);
    }
    de_from_bytes_asc(input, schema)
}

} // verus!
