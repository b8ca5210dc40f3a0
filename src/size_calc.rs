//! Exact size of serialized data, computed without serializing
//!
//! Used to size buffers before serialization; the computation only adds lengths.
use vstd::prelude::*;
use core::marker::PhantomData;
use crate::errors::Error;
use crate::params::SerializerParams;
use crate::value::{
    Value, entry_size, lemma_entry_size_push, lemma_list_size_push, list_size, prim_size, value_size,
};
use crate::varint::{varu32_encoded_len, varu32_len, varu64_encoded_len, varu64_len};

verus! {

broadcast use vstd::seq::axiom_seq_index_decreases, vstd::std_specs::vec::axiom_vec_decreases_to_view,
    vstd::std_specs::vec::axiom_vec_index_decreases;

/// Serialized size calculator
pub struct SizeCalc<P> {
    size: usize,
    marker: PhantomData<P>,
}

impl<P: SerializerParams> SizeCalc<P> {
    /// The size counted so far.
    pub closed spec fn spec_size(&self) -> nat {
        self.size as nat
    }

    pub fn new() -> (r: Self)
        ensures
            r.spec_size() == 0,
    {
        SizeCalc { size: 0, marker: PhantomData }
    }

    /// Returns the calculated size
    pub fn size(&self) -> (r: usize)
        ensures
            r == self.spec_size(),
    {
        self.size
    }

    /// Add `n` bytes; fails with `BufferOverflow` when the size no longer fits in `usize`
    pub fn add_ty(&mut self, n: usize) -> (r: Result<(), Error>)
        ensures
            r is Ok <==> old(self).spec_size() + n <= usize::MAX,
            r is Ok ==> final(self).spec_size() == old(self).spec_size() + n,
            r is Err ==> r == Err::<(), Error>(Error::BufferOverflow) && final(self).spec_size() == old(self).spec_size(),
    {
        if n > usize::MAX - self.size {
            Err(Error::BufferOverflow)
        } else {
            self.size = self.size + n;
            Ok(())
        }
    }

    /// Add the size of a sequence length
    pub fn add_seq_len(&mut self, v: usize) -> (r: Result<(), Error>)
        ensures
            r is Ok <==> old(self).spec_size() + varu64_len(v as nat) <= usize::MAX,
            r is Ok ==> final(self).spec_size() == old(self).spec_size() + varu64_len(v as nat),
            r is Err ==> r == Err::<(), Error>(Error::BufferOverflow) && final(self).spec_size() == old(self).spec_size(),
    {
        self.add_ty(varu64_encoded_len(v as u64) as usize)
    }

    /// Add the size of an enum discriminant
    pub fn add_discriminant_size(&mut self, v: u32) -> (r: Result<(), Error>)
        ensures
            r is Ok <==> old(self).spec_size() + varu32_len(v as nat) <= usize::MAX,
            r is Ok ==> final(self).spec_size() == old(self).spec_size() + varu32_len(v as nat),
            r is Err ==> r == Err::<(), Error>(Error::BufferOverflow) && final(self).spec_size() == old(self).spec_size(),
    {
        self.add_ty(varu32_encoded_len(v) as usize)
    }

    /// Add the serialized size of a value
    #[verifier::spinoff_prover]
    pub fn add_value(&mut self, v: &Value) -> (r: Result<(), Error>)
        ensures
            r is Ok <==> old(self).spec_size() + value_size(*v) <= usize::MAX,
            r is Ok ==> final(self).spec_size() == old(self).spec_size() + value_size(*v),
            r is Err ==> r == Err::<(), Error>(Error::BufferOverflow),
        decreases v,
    {
        match v {
            Value::Bytes(b) => match self.add_seq_len(b.len()) {
                Ok(()) => self.add_ty(b.len()),
                Err(e) => Err(e),
            },
            Value::Str(s) => {
                let n = s.as_str().as_bytes().len();
                match self.add_seq_len(n) {
                    Ok(()) => self.add_ty(n),
                    Err(e) => Err(e),
                }
            },
            Value::Unit => Ok(()),
            Value::Opt(o) => match self.add_ty(1) {
                Ok(()) => match o {
                    Option::None => Ok(()),
                    Option::Some(x) => self.add_value(x),
                },
                Err(e) => Err(e),
            },
            Value::Sequence(items) => match self.add_seq_len(items.len()) {
                Ok(()) => self.add_items(items),
                Err(e) => Err(e),
            },
            Value::Mapping(entries) => match self.add_seq_len(entries.len()) {
                Ok(()) => self.add_entries(entries),
                Err(e) => Err(e),
            },
            Value::Tuple(items) => self.add_items(items),
            Value::Variant(idx, x) => match self.add_discriminant_size(*idx) {
                Ok(()) => self.add_value(x),
                Err(e) => Err(e),
            },
            _ => {
                let n: usize = match v {
                    Value::Bool(_) | Value::U8(_) | Value::I8(_) => 1,
                    Value::U16(_) | Value::I16(_) => 2,
                    Value::U32(_) | Value::I32(_) | Value::F32(_) | Value::Char(_) => 4,
                    Value::U64(_) | Value::I64(_) | Value::F64(_) => 8,
                    _ => 16,
                };
                assert(n == prim_size(*v));
                self.add_ty(n)
            },
        }
    }

    fn add_items(&mut self, items: &Vec<Value>) -> (r: Result<(), Error>)
        ensures
            r is Ok <==> old(self).spec_size() + list_size(items@) <= usize::MAX,
            r is Ok ==> final(self).spec_size() == old(self).spec_size() + list_size(items@),
            r is Err ==> r == Err::<(), Error>(Error::BufferOverflow),
        decreases items,
    {
        let mut i: usize = 0;
        assert(items@.subrange(0, 0) =~= Seq::<Value>::empty());
        while i < items.len()
            invariant
                i <= items@.len(),
                self.spec_size() == old(self).spec_size() + list_size(items@.subrange(0, i as int)),
            decreases items@.len() - i,
        {
            proof {
                lemma_list_size_push(items@, i as int);
            }
            match self.add_value(&items[i]) {
                Ok(()) => {},
                Err(e) => {
                    return Err(e);
                },
            }
            i = i + 1;
        }
        assert(items@.subrange(0, i as int) =~= items@);
        Ok(())
    }

    fn add_entries(&mut self, entries: &Vec<(Value, Value)>) -> (r: Result<(), Error>)
        ensures
            r is Ok <==> old(self).spec_size() + entry_size(entries@) <= usize::MAX,
            r is Ok ==> final(self).spec_size() == old(self).spec_size() + entry_size(entries@),
            r is Err ==> r == Err::<(), Error>(Error::BufferOverflow),
        decreases entries,
    {
        let mut i: usize = 0;
        assert(entries@.subrange(0, 0) =~= Seq::<(Value, Value)>::empty());
        while i < entries.len()
            invariant
                i <= entries@.len(),
                self.spec_size() == old(self).spec_size() + entry_size(entries@.subrange(0, i as int)),
            decreases entries@.len() - i,
        {
            proof {
                lemma_entry_size_push(entries@, i as int);
            }
            match self.add_value(&entries[i].0) {
                Ok(()) => {},
                Err(e) => {
                    return Err(e);
                },
            }
            match self.add_value(&entries[i].1) {
                Ok(()) => {},
                Err(e) => {
                    return Err(e);
                },
            }
            i = i + 1;
        }
        assert(entries@.subrange(0, i as int) =~= entries@);
        Ok(())
    }
}

} // verus!
