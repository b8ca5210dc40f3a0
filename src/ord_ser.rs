//! Serializer for the data format, which may preserve the lexicographical ordering of values
//!
//! With `AscendingOrder` parameters values are written to the head of a double-ended buffer,
//! while sequence lengths and enum discriminants go to its tail, so that the head holds only
//! bytes that matter for ordering. Descending order is obtained by inverting the result.
use vstd::prelude::*;
use vstd::utf8::encode_utf8;
use crate::buf::DeBytesWriter;
use crate::errors::Error;
use crate::params::{Endianness, SerializerParams};
use crate::primitives::{encode_raw, is_little, little_endian};
use crate::value::{
    Format, Value, discr_parts, entry_parts, join, len_parts, lemma_entry_parts_push,
    lemma_list_parts_push, list_parts, parts, parts_len, prim_bytes,
};
use crate::varint::{varu32_encode, varu32_encode_to_tail, varu64_encode, varu64_encode_to_tail};

verus! {

broadcast use vstd::seq::axiom_seq_index_decreases, vstd::std_specs::vec::axiom_vec_decreases_to_view;

/// The format that serializer parameters `P` give, on a machine whose byte order is little-endian
/// or not as `native_little` says.
pub open spec fn format_of<P: SerializerParams>(native_little: bool) -> Format {
    Format {
        order: P::spec_order(),
        little: is_little(P::spec_endianness(), native_little),
        masked: P::spec_endianness() == Endianness::Big,
        at_tail: P::spec_lengths_at_tail(),
    }
}

/// The format of serializer parameters `P`, resolved on this machine.
pub fn resolve_format<P: SerializerParams>() -> (r: Format)
    ensures
        r == format_of::<P>(r.little),
{
    let little = little_endian::<P>();
    Format {
        order: P::order(),
        little,
        masked: P::endianness() == Endianness::Big,
        at_tail: P::lengths_at_tail(),
    }
}

/// From `before` to `after` the writer took head bytes `p.0` and tail bytes `p.1`, or failed
/// with `BufferOverflow` because they did not fit.
pub open spec fn wrote_parts(
    before: DeBytesWriter,
    after: DeBytesWriter,
    r: Result<(), Error>,
    p: (Seq<u8>, Seq<u8>),
) -> bool {
    &&& after.wf()
    &&& after.buf@.len() == before.buf@.len()
    &&& (r is Ok <==> parts_len(p) <= before.gap())
    &&& r is Ok ==> after.head_data() == before.head_data() + p.0 && after.tail_data() == p.1
        + before.tail_data() && after.head == before.head + p.0.len() && after.tail == before.tail
        - p.1.len()
    &&& r is Err ==> r == Err::<(), Error>(Error::BufferOverflow)
}

/// Serializer of structured values into a double-ended buffer
///
/// It writes without allocating the output: the buffer must be large enough, which `calc_size`
/// tells in advance.
pub struct Serializer<'a, P> {
    pub writer: DeBytesWriter<'a>,
    pub fmt: Format,
    pub params: P,
}

impl<'a, P: SerializerParams> Serializer<'a, P> {
    pub fn new(writer: DeBytesWriter<'a>, params: P) -> (r: Self)
        ensures
            r.writer == writer,
            r.fmt == format_of::<P>(r.fmt.little),
    {
        Serializer { writer, fmt: resolve_format::<P>(), params }
    }

    pub fn into_writer(self) -> (r: DeBytesWriter<'a>)
        ensures
            r == self.writer,
    {
        self.writer
    }

    /// Write bytes at the head.
    fn put(&mut self, b: &[u8]) -> (r: Result<(), Error>)
        requires
            old(self).writer.wf(),
        ensures
            final(final(self).writer.buf)@ == final(old(self).writer.buf)@,
            final(self).fmt == old(self).fmt,
            wrote_parts(old(self).writer, final(self).writer, r, (b@, Seq::empty())),
    {
        self.writer.write(b)
    }

    /// Write a number of `n` bytes.
    fn put_key(&mut self, k: u128, n: usize) -> (r: Result<(), Error>)
        requires
            old(self).writer.wf(),
        ensures
            final(final(self).writer.buf)@ == final(old(self).writer.buf)@,
            final(self).fmt == old(self).fmt,
            wrote_parts(
                old(self).writer,
                final(self).writer,
                r,
                (crate::ordering::ordered(crate::primitives::raw(k as nat, n as nat, old(self).fmt.little), old(self).fmt.order), Seq::empty()),
            ),
    {
        let b = encode_raw(k, n, self.fmt.order, self.fmt.little);
        self.put(b.as_slice())
    }

    /// Write a sequence length: to the tail when the parameters say so
    pub fn write_len(&mut self, v: usize) -> (r: Result<(), Error>)
        requires
            old(self).writer.wf(),
        ensures
            final(final(self).writer.buf)@ == final(old(self).writer.buf)@,
            final(self).fmt == old(self).fmt,
            wrote_parts(old(self).writer, final(self).writer, r, len_parts(v as nat, old(self).fmt)),
    {
        if self.fmt.at_tail {
            let r = varu64_encode_to_tail(&mut self.writer, v as u64);
            proof {
                assert(Seq::<u8>::empty() + old(self).writer.head_data() =~= old(self).writer.head_data());
                assert(old(self).writer.head_data() + Seq::<u8>::empty() =~= old(self).writer.head_data());
            }
            r
        } else {
            let e = varu64_encode(v as u64);
            let r = self.put(e.as_slice());
            assert(Seq::<u8>::empty() + old(self).writer.tail_data() =~= old(self).writer.tail_data());
            r
        }
    }

    /// Write an enum discriminant: to the tail when the parameters say so
    pub fn write_discr(&mut self, v: u32) -> (r: Result<(), Error>)
        requires
            old(self).writer.wf(),
        ensures
            final(final(self).writer.buf)@ == final(old(self).writer.buf)@,
            final(self).fmt == old(self).fmt,
            wrote_parts(old(self).writer, final(self).writer, r, discr_parts(v, old(self).fmt)),
    {
        if self.fmt.at_tail {
            let r = varu32_encode_to_tail(&mut self.writer, v);
            proof {
                assert(old(self).writer.head_data() + Seq::<u8>::empty() =~= old(self).writer.head_data());
            }
            r
        } else {
            let e = varu32_encode(v);
            let r = self.put(e.as_slice());
            assert(Seq::<u8>::empty() + old(self).writer.tail_data() =~= old(self).writer.tail_data());
            r
        }
    }

    pub fn serialize_bool(&mut self, v: bool) -> (r: Result<(), Error>)
        requires
            old(self).writer.wf(),
        ensures
            final(final(self).writer.buf)@ == final(old(self).writer.buf)@,
            final(self).fmt == old(self).fmt,
            wrote_parts(old(self).writer, final(self).writer, r, (prim_bytes(Value::Bool(v), old(self).fmt), Seq::empty())),
    {
        proof { crate::primitives::lemma_pow256_values(); }
        self.put_key(if v { 1 } else { 0 }, 1)
    }

    pub fn serialize_u8(&mut self, v: u8) -> (r: Result<(), Error>)
        requires
            old(self).writer.wf(),
        ensures
            final(final(self).writer.buf)@ == final(old(self).writer.buf)@,
            final(self).fmt == old(self).fmt,
            wrote_parts(old(self).writer, final(self).writer, r, (prim_bytes(Value::U8(v), old(self).fmt), Seq::empty())),
    {
        proof { crate::primitives::lemma_pow256_values(); }
        self.put_key(v as u128, 1)
    }

    pub fn serialize_u16(&mut self, v: u16) -> (r: Result<(), Error>)
        requires
            old(self).writer.wf(),
        ensures
            final(final(self).writer.buf)@ == final(old(self).writer.buf)@,
            final(self).fmt == old(self).fmt,
            wrote_parts(old(self).writer, final(self).writer, r, (prim_bytes(Value::U16(v), old(self).fmt), Seq::empty())),
    {
        proof { crate::primitives::lemma_pow256_values(); }
        self.put_key(v as u128, 2)
    }

    pub fn serialize_u32(&mut self, v: u32) -> (r: Result<(), Error>)
        requires
            old(self).writer.wf(),
        ensures
            final(final(self).writer.buf)@ == final(old(self).writer.buf)@,
            final(self).fmt == old(self).fmt,
            wrote_parts(old(self).writer, final(self).writer, r, (prim_bytes(Value::U32(v), old(self).fmt), Seq::empty())),
    {
        proof { crate::primitives::lemma_pow256_values(); }
        self.put_key(v as u128, 4)
    }

    pub fn serialize_u64(&mut self, v: u64) -> (r: Result<(), Error>)
        requires
            old(self).writer.wf(),
        ensures
            final(final(self).writer.buf)@ == final(old(self).writer.buf)@,
            final(self).fmt == old(self).fmt,
            wrote_parts(old(self).writer, final(self).writer, r, (prim_bytes(Value::U64(v), old(self).fmt), Seq::empty())),
    {
        proof { crate::primitives::lemma_pow256_values(); }
        self.put_key(v as u128, 8)
    }

    pub fn serialize_u128(&mut self, v: u128) -> (r: Result<(), Error>)
        requires
            old(self).writer.wf(),
        ensures
            final(final(self).writer.buf)@ == final(old(self).writer.buf)@,
            final(self).fmt == old(self).fmt,
            wrote_parts(old(self).writer, final(self).writer, r, (prim_bytes(Value::U128(v), old(self).fmt), Seq::empty())),
    {
        proof { crate::primitives::lemma_pow256_values(); }
        self.put_key(v, 16)
    }

    pub fn serialize_i8(&mut self, v: i8) -> (r: Result<(), Error>)
        requires
            old(self).writer.wf(),
        ensures
            final(final(self).writer.buf)@ == final(old(self).writer.buf)@,
            final(self).fmt == old(self).fmt,
            wrote_parts(old(self).writer, final(self).writer, r, (prim_bytes(Value::I8(v), old(self).fmt), Seq::empty())),
    {
        proof { crate::primitives::lemma_pow256_values(); }
        self.put_key((v as i128 + 0x80) as u128, 1)
    }

    pub fn serialize_i16(&mut self, v: i16) -> (r: Result<(), Error>)
        requires
            old(self).writer.wf(),
        ensures
            final(final(self).writer.buf)@ == final(old(self).writer.buf)@,
            final(self).fmt == old(self).fmt,
            wrote_parts(old(self).writer, final(self).writer, r, (prim_bytes(Value::I16(v), old(self).fmt), Seq::empty())),
    {
        proof { crate::primitives::lemma_pow256_values(); }
        self.put_key((v as i128 + 0x8000) as u128, 2)
    }

    pub fn serialize_i32(&mut self, v: i32) -> (r: Result<(), Error>)
        requires
            old(self).writer.wf(),
        ensures
            final(final(self).writer.buf)@ == final(old(self).writer.buf)@,
            final(self).fmt == old(self).fmt,
            wrote_parts(old(self).writer, final(self).writer, r, (prim_bytes(Value::I32(v), old(self).fmt), Seq::empty())),
    {
        proof { crate::primitives::lemma_pow256_values(); }
        self.put_key((v as i128 + 0x8000_0000) as u128, 4)
    }

    pub fn serialize_i64(&mut self, v: i64) -> (r: Result<(), Error>)
        requires
            old(self).writer.wf(),
        ensures
            final(final(self).writer.buf)@ == final(old(self).writer.buf)@,
            final(self).fmt == old(self).fmt,
            wrote_parts(old(self).writer, final(self).writer, r, (prim_bytes(Value::I64(v), old(self).fmt), Seq::empty())),
    {
        proof { crate::primitives::lemma_pow256_values(); }
        self.put_key((v as i128 + 0x8000_0000_0000_0000) as u128, 8)
    }

    pub fn serialize_i128(&mut self, v: i128) -> (r: Result<(), Error>)
        requires
            old(self).writer.wf(),
        ensures
            final(final(self).writer.buf)@ == final(old(self).writer.buf)@,
            final(self).fmt == old(self).fmt,
            wrote_parts(old(self).writer, final(self).writer, r, (prim_bytes(Value::I128(v), old(self).fmt), Seq::empty())),
    {
        proof { crate::primitives::lemma_pow256_values(); }
        let k: u128 = if v >= 0 {
            v as u128 + 0x8000_0000_0000_0000_0000_0000_0000_0000
        } else {
            (v + 1 + i128::MAX) as u128
        };
        self.put_key(k, 16)
    }

    pub fn serialize_char(&mut self, v: char) -> (r: Result<(), Error>)
        requires
            old(self).writer.wf(),
        ensures
            final(final(self).writer.buf)@ == final(old(self).writer.buf)@,
            final(self).fmt == old(self).fmt,
            wrote_parts(old(self).writer, final(self).writer, r, (prim_bytes(Value::Char(v), old(self).fmt), Seq::empty())),
    {
        self.put_key(v as u32 as u128, 4)
    }

    /// Serialize an `f32` given by its bit pattern
    pub fn serialize_f32(&mut self, bits: u32) -> (r: Result<(), Error>)
        requires
            old(self).writer.wf(),
        ensures
            final(final(self).writer.buf)@ == final(old(self).writer.buf)@,
            final(self).fmt == old(self).fmt,
            wrote_parts(old(self).writer, final(self).writer, r, (prim_bytes(Value::F32(bits), old(self).fmt), Seq::empty())),
    {
        proof { crate::primitives::lemma_pow256_values(); }
        let k: u32 = if !self.fmt.masked {
            bits
        } else if bits >= 0x8000_0000 {
            0xFFFF_FFFF - bits
        } else {
            bits + 0x8000_0000
        };
        self.put_key(k as u128, 4)
    }

    /// Serialize an `f64` given by its bit pattern
    pub fn serialize_f64(&mut self, bits: u64) -> (r: Result<(), Error>)
        requires
            old(self).writer.wf(),
        ensures
            final(final(self).writer.buf)@ == final(old(self).writer.buf)@,
            final(self).fmt == old(self).fmt,
            wrote_parts(old(self).writer, final(self).writer, r, (prim_bytes(Value::F64(bits), old(self).fmt), Seq::empty())),
    {
        proof { crate::primitives::lemma_pow256_values(); }
        let k: u64 = if !self.fmt.masked {
            bits
        } else if bits >= 0x8000_0000_0000_0000 {
            0xFFFF_FFFF_FFFF_FFFF - bits
        } else {
            bits + 0x8000_0000_0000_0000
        };
        self.put_key(k as u128, 8)
    }

    /// Serialize a byte string: its length, then its bytes as they are
    pub fn serialize_bytes(&mut self, v: &[u8]) -> (r: Result<(), Error>)
        requires
            old(self).writer.wf(),
        ensures
            final(final(self).writer.buf)@ == final(old(self).writer.buf)@,
            final(self).fmt == old(self).fmt,
            wrote_parts(old(self).writer, final(self).writer, r, join(len_parts(v@.len(), old(self).fmt), (v@, Seq::empty()))),
    {
        let r1 = self.write_len(v.len());
        match r1 {
            Ok(()) => {
                let r2 = self.put(v);
                proof {
                    let p = join(len_parts(v@.len(), old(self).fmt), (v@, Seq::empty()));
                    assert(p.0 =~= len_parts(v@.len(), old(self).fmt).0 + v@);
                    assert(p.1 =~= len_parts(v@.len(), old(self).fmt).1);
                    if r2 is Ok {
                        assert(final(self).writer.head_data() =~= old(self).writer.head_data() + p.0);
                    }
                }
                r2
            },
            Err(e) => Err(e),
        }
    }

    /// Serialize text: as the byte string of its UTF-8 encoding
    pub fn serialize_str(&mut self, v: &str) -> (r: Result<(), Error>)
        requires
            old(self).writer.wf(),
        ensures
            final(final(self).writer.buf)@ == final(old(self).writer.buf)@,
            final(self).fmt == old(self).fmt,
            wrote_parts(
                old(self).writer,
                final(self).writer,
                r,
                join(len_parts(encode_utf8(v@).len(), old(self).fmt), (encode_utf8(v@), Seq::empty())),
            ),
    {
        self.serialize_bytes(v.as_bytes())
    }

    /// Serialize an absent option: tag 0
    pub fn serialize_none(&mut self) -> (r: Result<(), Error>)
        requires
            old(self).writer.wf(),
        ensures
            final(final(self).writer.buf)@ == final(old(self).writer.buf)@,
            final(self).fmt == old(self).fmt,
            wrote_parts(old(self).writer, final(self).writer, r, (prim_bytes(Value::U8(0), old(self).fmt), Seq::empty())),
    {
        self.serialize_u8(0)
    }

    /// Serialize the tag of a present option, 1; its value follows
    pub fn serialize_some_tag(&mut self) -> (r: Result<(), Error>)
        requires
            old(self).writer.wf(),
        ensures
            final(final(self).writer.buf)@ == final(old(self).writer.buf)@,
            final(self).fmt == old(self).fmt,
            wrote_parts(old(self).writer, final(self).writer, r, (prim_bytes(Value::U8(1), old(self).fmt), Seq::empty())),
    {
        self.serialize_u8(1)
    }

    /// Serialize a structured value
    #[verifier::spinoff_prover]
    #[verifier::rlimit(100)]
    pub fn serialize_value(&mut self, v: &Value) -> (r: Result<(), Error>)
        requires
            old(self).writer.wf(),
        ensures
            final(final(self).writer.buf)@ == final(old(self).writer.buf)@,
            final(self).fmt == old(self).fmt,
            wrote_parts(old(self).writer, final(self).writer, r, parts(*v, old(self).fmt)),
        decreases v,
    {
        match v {
            Value::Bool(x) => self.serialize_bool(*x),
            Value::U8(x) => self.serialize_u8(*x),
            Value::U16(x) => self.serialize_u16(*x),
            Value::U32(x) => self.serialize_u32(*x),
            Value::U64(x) => self.serialize_u64(*x),
            Value::U128(x) => self.serialize_u128(*x),
            Value::I8(x) => self.serialize_i8(*x),
            Value::I16(x) => self.serialize_i16(*x),
            Value::I32(x) => self.serialize_i32(*x),
            Value::I64(x) => self.serialize_i64(*x),
            Value::I128(x) => self.serialize_i128(*x),
            Value::F32(x) => self.serialize_f32(*x),
            Value::F64(x) => self.serialize_f64(*x),
            Value::Char(x) => self.serialize_char(*x),
            Value::Bytes(b) => self.serialize_bytes(b.as_slice()),
            Value::Str(s) => self.serialize_str(s.as_str()),
            Value::Unit => {
                assert(old(self).writer.head_data() + Seq::<u8>::empty() =~= old(self).writer.head_data());
                assert(Seq::<u8>::empty() + old(self).writer.tail_data() =~= old(self).writer.tail_data());
                Ok(())
            },
            Value::Opt(o) => match o {
                Option::None => self.serialize_none(),
                Option::Some(x) => {
                    let ghost w0 = self.writer;
                    match self.serialize_some_tag() {
                        Ok(()) => {
                            let ghost w1 = self.writer;
                            let r = self.serialize_value(x);
                            proof { self.lemma_chain(w0, w1, self.writer, r, (prim_bytes(Value::U8(1), self.fmt), Seq::empty()), parts(**x, self.fmt)); }
                            r
                        },
                        Err(e) => Err(e),
                    }
                },
            },
            Value::Sequence(items) => {
                let ghost w0 = self.writer;
                match self.write_len(items.len()) {
                    Ok(()) => {
                        let ghost w1 = self.writer;
                        let r = self.serialize_items(items);
                        proof { self.lemma_chain(w0, w1, self.writer, r, len_parts(items@.len(), self.fmt), list_parts(items@, self.fmt)); }
                        r
                    },
                    Err(e) => Err(e),
                }
            },
            Value::Mapping(entries) => {
                let ghost w0 = self.writer;
                match self.write_len(entries.len()) {
                    Ok(()) => {
                        let ghost w1 = self.writer;
                        let r = self.serialize_entries(entries);
                        proof { self.lemma_chain(w0, w1, self.writer, r, len_parts(entries@.len(), self.fmt), entry_parts(entries@, self.fmt)); }
                        r
                    },
                    Err(e) => Err(e),
                }
            },
            Value::Tuple(items) => self.serialize_items(items),
            Value::Variant(idx, x) => {
                let ghost w0 = self.writer;
                match self.write_discr(*idx) {
                    Ok(()) => {
                        let ghost w1 = self.writer;
                        let r = self.serialize_value(x);
                        proof { self.lemma_chain(w0, w1, self.writer, r, discr_parts(*idx, self.fmt), parts(**x, self.fmt)); }
                        r
                    },
                    Err(e) => Err(e),
                }
            },
        }
    }

    /// Two writes in a row make one, of the joined parts.
    proof fn lemma_chain(
        &self,
        w0: DeBytesWriter,
        w1: DeBytesWriter,
        w2: DeBytesWriter,
        r: Result<(), Error>,
        a: (Seq<u8>, Seq<u8>),
        b: (Seq<u8>, Seq<u8>),
    )
        requires
            wrote_parts(w0, w1, Ok(()), a),
            wrote_parts(w1, w2, r, b),
        ensures
            wrote_parts(w0, w2, r, join(a, b)),
    {
        if r is Ok {
            assert(w2.head_data() =~= w0.head_data() + join(a, b).0);
            assert(w2.tail_data() =~= join(a, b).1 + w0.tail_data());
        }
    }

    /// Serialize values one after another
    fn serialize_items(&mut self, items: &Vec<Value>) -> (r: Result<(), Error>)
        requires
            old(self).writer.wf(),
        ensures
            final(final(self).writer.buf)@ == final(old(self).writer.buf)@,
            final(self).fmt == old(self).fmt,
            wrote_parts(old(self).writer, final(self).writer, r, list_parts(items@, old(self).fmt)),
        decreases items,
    {
        let ghost w0 = self.writer;
        let mut i: usize = 0;
        assert(items@.subrange(0, 0) =~= Seq::<Value>::empty());
        assert(w0.head_data() + Seq::<u8>::empty() =~= w0.head_data());
        assert(Seq::<u8>::empty() + w0.tail_data() =~= w0.tail_data());
        while i < items.len()
            invariant
                i <= items@.len(),
                self.writer.wf(),
                w0 == old(self).writer,
                final(self.writer.buf)@ == final(old(self).writer.buf)@,
                self.fmt == old(self).fmt,
                wrote_parts(w0, self.writer, Ok(()), list_parts(items@.subrange(0, i as int), self.fmt)),
                parts_len(list_parts(items@.subrange(0, i as int), self.fmt)) <= w0.gap(),
            decreases items@.len() - i,
        {
            let ghost w1 = self.writer;
            let ghost done = items@.subrange(0, i as int);
            proof {
                assert(items@.subrange(0, i + 1) =~= done.push(items@[i as int]));
                lemma_list_parts_push(done, items@[i as int], self.fmt);
                crate::value::lemma_list_parts_split(items@, i as int, self.fmt);
            }
            let r = self.serialize_value(&items[i]);
            proof { self.lemma_chain(w0, w1, self.writer, r, list_parts(done, self.fmt), parts(items@[i as int], self.fmt)); }
            match r {
                Ok(()) => {},
                Err(e) => {
                    return Err(e);
                },
            }
            i = i + 1;
        }
        assert(items@.subrange(0, i as int) =~= items@);
        Ok(())
    }

    /// Serialize map entries one after another, key before value
    fn serialize_entries(&mut self, entries: &Vec<(Value, Value)>) -> (r: Result<(), Error>)
        requires
            old(self).writer.wf(),
        ensures
            final(final(self).writer.buf)@ == final(old(self).writer.buf)@,
            final(self).fmt == old(self).fmt,
            wrote_parts(old(self).writer, final(self).writer, r, entry_parts(entries@, old(self).fmt)),
        decreases entries,
    {
        let ghost w0 = self.writer;
        let mut i: usize = 0;
        assert(entries@.subrange(0, 0) =~= Seq::<(Value, Value)>::empty());
        assert(w0.head_data() + Seq::<u8>::empty() =~= w0.head_data());
        assert(Seq::<u8>::empty() + w0.tail_data() =~= w0.tail_data());
        while i < entries.len()
            invariant
                i <= entries@.len(),
                self.writer.wf(),
                w0 == old(self).writer,
                final(self.writer.buf)@ == final(old(self).writer.buf)@,
                self.fmt == old(self).fmt,
                wrote_parts(w0, self.writer, Ok(()), entry_parts(entries@.subrange(0, i as int), self.fmt)),
            decreases entries@.len() - i,
        {
            let ghost w1 = self.writer;
            let ghost done = entries@.subrange(0, i as int);
            let ghost e = entries@[i as int];
            proof {
                assert(entries@.subrange(0, i + 1) =~= done.push(e));
                lemma_entry_parts_push(done, e, self.fmt);
                crate::value::lemma_entry_parts_split(entries@, i as int, self.fmt);
            }
            let r = self.serialize_value(&entries[i].0);
            match r {
                Ok(()) => {},
                Err(err) => {
                    proof { self.lemma_chain(w0, w1, self.writer, r, entry_parts(done, self.fmt), parts(e.0, self.fmt)); }
                    return Err(err);
                },
            }
            let ghost w2 = self.writer;
            let r = self.serialize_value(&entries[i].1);
            proof {
                self.lemma_chain(w1, w2, self.writer, r, parts(e.0, self.fmt), parts(e.1, self.fmt));
                self.lemma_chain(w0, w1, self.writer, r, entry_parts(done, self.fmt), join(parts(e.0, self.fmt), parts(e.1, self.fmt)));
            }
            match r {
                Ok(()) => {},
                Err(err) => {
                    return Err(err);
                },
            }
            i = i + 1;
        }
        assert(entries@.subrange(0, i as int) =~= entries@);
        Ok(())
    }
}

} // verus!
