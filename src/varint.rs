//! Fast variable-length encoding of unsigned integers, for sequence lengths and discriminants.
//!
//! The number of trailing zero bits of the first byte, plus one, is the length of the
//! encoding. Values below `2^56` take `L` bytes, the smallest with `value < 2^(7L)`: the
//! little-endian bytes of `((value << 1) | 1) << (L - 1)`. Larger values take a zero byte and
//! eight little-endian bytes. The 32-bit form writes values from `2^28` on as `0xF0` and four
//! little-endian bytes. The encoding does not preserve order; it is canonical: a value has
//! one encoding, and decoding refuses the others.
use vstd::prelude::*;
use crate::buf::{DeBytesReader, DeBytesWriter, WriteBytes};
use crate::errors::Error;
use crate::ordering::{be, be_val, lemma_be_len, lemma_be_val_be, lemma_be_val_bound, le, le_val, pow256};
use crate::primitives::{be_bytes, be_number, lemma_pow256_mono, lemma_pow256_values, reversed, wrote};

verus! {

/// Length in bytes of the 64-bit encoding of `v`.
pub open spec fn varu64_len(v: nat) -> nat {
    if v < 0x80 {
        1
    } else if v < 0x4000 {
        2
    } else if v < 0x20_0000 {
        3
    } else if v < 0x1000_0000 {
        4
    } else if v < 0x8_0000_0000 {
        5
    } else if v < 0x400_0000_0000 {
        6
    } else if v < 0x2_0000_0000_0000 {
        7
    } else if v < 0x100_0000_0000_0000 {
        8
    } else {
        9
    }
}

/// Length in bytes of the 32-bit encoding of `v`.
pub open spec fn varu32_len(v: nat) -> nat {
    if varu64_len(v) >= 5 {
        5
    } else {
        varu64_len(v)
    }
}

/// The smallest value whose encoding takes `l` bytes.
pub open spec fn varint_min(l: nat) -> nat {
    if l == 2 {
        0x80
    } else if l == 3 {
        0x4000
    } else if l == 4 {
        0x20_0000
    } else if l == 5 {
        0x1000_0000
    } else if l == 6 {
        0x8_0000_0000
    } else if l == 7 {
        0x400_0000_0000
    } else if l == 8 {
        0x2_0000_0000_0000
    } else if l == 9 {
        0x100_0000_0000_0000
    } else {
        0
    }
}

/// The word whose first `l` little-endian bytes encode `v` in the short forms.
pub open spec fn varint_word(v: u64, l: u64) -> u64 {
    ((v << 1u64) | 1u64) << ((l - 1) as u64)
}

/// The 64-bit encoding of `v`.
pub open spec fn varu64_enc(v: u64) -> Seq<u8> {
    let l = varu64_len(v as nat);
    if l == 9 {
        seq![0u8] + le(v as nat, 8)
    } else {
        le(varint_word(v, l as u64) as nat, l)
    }
}

/// The 32-bit encoding of `v`.
pub open spec fn varu32_enc(v: u32) -> Seq<u8> {
    let l = varu32_len(v as nat);
    if l == 5 {
        seq![0xF0u8] + le(v as nat, 4)
    } else {
        le(varint_word(v as u64, l as u64) as nat, l)
    }
}

/// How an encoding stands at the tail of a double-ended buffer: its first byte last, so that
/// a reader from the end meets it first.
pub open spec fn tail_form(e: Seq<u8>) -> Seq<u8> {
    e.drop_first() + seq![e[0]]
}

/// Number of trailing zero bits of `b` (8 for zero).
pub open spec fn tz8(b: u8) -> nat {
    if b & 0x1 != 0 {
        0
    } else if b & 0x2 != 0 {
        1
    } else if b & 0x4 != 0 {
        2
    } else if b & 0x8 != 0 {
        3
    } else if b & 0x10 != 0 {
        4
    } else if b & 0x20 != 0 {
        5
    } else if b & 0x40 != 0 {
        6
    } else if b & 0x80 != 0 {
        7
    } else {
        8
    }
}

/// Length of an encoding, from its first byte.
pub open spec fn decoded_len(first: u8) -> nat {
    tz8(first) + 1
}

/// Whether `v` encoded on `l` bytes is the only encoding of `v`.
pub open spec fn canonical(v: nat, l: nat) -> bool {
    l == 1 || v >= varint_min(l)
}

/// The value of a 64-bit encoding, from its first byte and the bytes that follow it.
pub open spec fn varu64_value(first: u8, more: Seq<u8>) -> nat {
    let l = decoded_len(first);
    if l == 9 {
        le_val(more)
    } else {
        ((le_val(seq![first] + more) as u64) >> (l as u64)) as nat
    }
}

/// The value of a 32-bit encoding, from its first byte and the bytes that follow it.
pub open spec fn varu32_value(first: u8, more: Seq<u8>) -> nat {
    let l = decoded_len(first);
    if l == 5 {
        le_val(more)
    } else {
        ((le_val(seq![first] + more) as u64) >> (l as u64)) as nat
    }
}

/// Decoding of a 64-bit encoding at the start of `s`: the value and the length.
pub open spec fn varu64_dec(s: Seq<u8>) -> Result<(nat, nat), Error> {
    if s.len() == 0 {
        Err(Error::PrematureEndOfInput)
    } else {
        let l = decoded_len(s[0]);
        if s.len() < l {
            Err(Error::PrematureEndOfInput)
        } else {
            let v = varu64_value(s[0], s.subrange(1, l as int));
            if canonical(v, l) {
                Ok((v, l))
            } else {
                Err(Error::InvalidVarintEncoding)
            }
        }
    }
}

/// Decoding of a 32-bit encoding at the start of `s`: the value and the length.
pub open spec fn varu32_dec(s: Seq<u8>) -> Result<(nat, nat), Error> {
    if s.len() == 0 {
        Err(Error::PrematureEndOfInput)
    } else {
        let l = decoded_len(s[0]);
        if l > 5 {
            Err(Error::InvalidVarintEncoding)
        } else if s.len() < l {
            Err(Error::PrematureEndOfInput)
        } else if l == 5 && s[0] != 0xF0 {
            Err(Error::InvalidVarintEncoding)
        } else {
            let v = varu32_value(s[0], s.subrange(1, l as int));
            if canonical(v, l) {
                Ok((v, l))
            } else {
                Err(Error::InvalidVarintEncoding)
            }
        }
    }
}

/// Decoding of a 64-bit encoding in tail form at the end of `s`: the value and the length.
pub open spec fn varu64_dec_tail(s: Seq<u8>) -> Result<(nat, nat), Error> {
    if s.len() == 0 {
        Err(Error::PrematureEndOfInput)
    } else if s.len() < decoded_len(s.last()) {
        Err(Error::PrematureEndOfInput)
    } else {
        varu64_dec(seq![s.last()] + s.subrange(s.len() - decoded_len(s.last()), s.len() - 1))
    }
}

/// Decoding of a 32-bit encoding in tail form at the end of `s`: the value and the length.
pub open spec fn varu32_dec_tail(s: Seq<u8>) -> Result<(nat, nat), Error> {
    if s.len() == 0 {
        Err(Error::PrematureEndOfInput)
    } else if decoded_len(s.last()) > 5 {
        Err(Error::InvalidVarintEncoding)
    } else if s.len() < decoded_len(s.last()) {
        Err(Error::PrematureEndOfInput)
    } else if decoded_len(s.last()) == 5 && s.last() != 0xF0 {
        Err(Error::InvalidVarintEncoding)
    } else {
        varu32_dec(seq![s.last()] + s.subrange(s.len() - decoded_len(s.last()), s.len() - 1))
    }
}

proof fn lemma_word(v: u64, l: u64)
    requires
        1 <= l <= 8,
        varu64_len(v as nat) == l,
    ensures
        varint_word(v, l) >> l == v,
        tz8((varint_word(v, l) & 0xffu64) as u8) == l - 1,
        (varint_word(v, l) as nat) < pow256(l as nat),
{
    let w = varint_word(v, l);
    let b = (w & 0xffu64) as u8;
    lemma_pow256_values();
    if l == 0 {
    } else if l == 1 {
        assert(
            w >> 1u64 == v && b & 0x1u8 != 0u8 && w < 0x100u64
        ) by (bit_vector)
            requires
                v < 0x80u64,
                w == ((v << 1u64) | 1u64) << 0u64,
                b == (w & 0xffu64) as u8,
        ;
    } else if l == 2 {
        assert(
            w >> 2u64 == v && b & 0x2u8 != 0u8 && b & 0x1u8 == 0u8 && w < 0x1_0000u64
        ) by (bit_vector)
            requires
                v < 0x4000u64,
                w == ((v << 1u64) | 1u64) << 1u64,
                b == (w & 0xffu64) as u8,
        ;
    } else if l == 3 {
        assert(
            w >> 3u64 == v && b & 0x4u8 != 0u8 && b & 0x1u8 == 0u8 && b & 0x2u8 == 0u8 && w < 0x100_0000u64
        ) by (bit_vector)
            requires
                v < 0x20_0000u64,
                w == ((v << 1u64) | 1u64) << 2u64,
                b == (w & 0xffu64) as u8,
        ;
    } else if l == 4 {
        assert(
            w >> 4u64 == v && b & 0x8u8 != 0u8 && b & 0x1u8 == 0u8 && b & 0x2u8 == 0u8 && b & 0x4u8 == 0u8 && w < 0x1_0000_0000u64
        ) by (bit_vector)
            requires
                v < 0x1000_0000u64,
                w == ((v << 1u64) | 1u64) << 3u64,
                b == (w & 0xffu64) as u8,
        ;
    } else if l == 5 {
        assert(
            w >> 5u64 == v && b & 0x10u8 != 0u8 && b & 0x1u8 == 0u8 && b & 0x2u8 == 0u8 && b & 0x4u8 == 0u8 && b & 0x8u8 == 0u8 && w < 0x100_0000_0000u64
        ) by (bit_vector)
            requires
                v < 0x8_0000_0000u64,
                w == ((v << 1u64) | 1u64) << 4u64,
                b == (w & 0xffu64) as u8,
        ;
    } else if l == 6 {
        assert(
            w >> 6u64 == v && b & 0x20u8 != 0u8 && b & 0x1u8 == 0u8 && b & 0x2u8 == 0u8 && b & 0x4u8 == 0u8 && b & 0x8u8 == 0u8 && b & 0x10u8 == 0u8 && w < 0x1_0000_0000_0000u64
        ) by (bit_vector)
            requires
                v < 0x400_0000_0000u64,
                w == ((v << 1u64) | 1u64) << 5u64,
                b == (w & 0xffu64) as u8,
        ;
    } else if l == 7 {
        assert(
            w >> 7u64 == v && b & 0x40u8 != 0u8 && b & 0x1u8 == 0u8 && b & 0x2u8 == 0u8 && b & 0x4u8 == 0u8 && b & 0x8u8 == 0u8 && b & 0x10u8 == 0u8 && b & 0x20u8 == 0u8 && w < 0x100_0000_0000_0000u64
        ) by (bit_vector)
            requires
                v < 0x2_0000_0000_0000u64,
                w == ((v << 1u64) | 1u64) << 6u64,
                b == (w & 0xffu64) as u8,
        ;
    } else if l == 8 {
        assert(
            w >> 8u64 == v && b & 0x80u8 != 0u8 && b & 0x1u8 == 0u8 && b & 0x2u8 == 0u8 && b & 0x4u8 == 0u8 && b & 0x8u8 == 0u8 && b & 0x10u8 == 0u8 && b & 0x20u8 == 0u8 && b & 0x40u8 == 0u8
        ) by (bit_vector)
            requires
                v < 0x100_0000_0000_0000u64,
                w == ((v << 1u64) | 1u64) << 7u64,
                b == (w & 0xffu64) as u8,
        ;
    }
}

proof fn lemma_le_first(w: nat, l: nat)
    requires
        l >= 1,
    ensures
        le(w, l)[0] == (w % 256) as u8,
        le(w, l).len() == l,
{
    lemma_be_len(w, l);
    assert(be(w, l).last() == (w % 256) as u8);
}

proof fn lemma_le_round_trip(w: nat, l: nat)
    requires
        w < pow256(l),
    ensures
        le_val(le(w, l)) == w,
        le(w, l).len() == l,
{
    lemma_be_val_be(w, l);
    lemma_be_len(w, l);
    assert(be(w, l).reverse().reverse() =~= be(w, l));
}

/// Round trip of 64-bit varints: the encoding of `v`, followed by any bytes, decodes to `v` and
/// its length.
pub proof fn law_varu64_round_trip(v: u64, rest: Seq<u8>)
    ensures
        varu64_enc(v).len() == varu64_len(v as nat),
        varu64_dec(varu64_enc(v) + rest) == Ok::<(nat, nat), Error>((v as nat, varu64_len(v as nat))),
{
    let l = varu64_len(v as nat);
    let e = varu64_enc(v);
    let s = e + rest;
    lemma_pow256_values();
    if l == 9 {
        lemma_le_round_trip(v as nat, 8);
        assert(tz8(0u8) == 8) by (bit_vector);
        assert(s.subrange(1, 9) =~= le(v as nat, 8));
    } else {
        let w = varint_word(v, l as u64);
        lemma_word(v, l as u64);
        lemma_le_first(w as nat, l);
        lemma_le_round_trip(w as nat, l);
        assert(w & 0xffu64 == w % 256) by (bit_vector);
        assert(seq![s[0]] + s.subrange(1, l as int) =~= e);
    }
}

/// Round trip of 32-bit varints: the encoding of `v`, followed by any bytes, decodes to `v` and
/// its length.
pub proof fn law_varu32_round_trip(v: u32, rest: Seq<u8>)
    ensures
        varu32_enc(v).len() == varu32_len(v as nat),
        varu32_dec(varu32_enc(v) + rest) == Ok::<(nat, nat), Error>((v as nat, varu32_len(v as nat))),
{
    let l = varu32_len(v as nat);
    let e = varu32_enc(v);
    let s = e + rest;
    lemma_pow256_values();
    if l == 5 {
        lemma_le_round_trip(v as nat, 4);
        assert(tz8(0xF0u8) == 4) by (bit_vector);
        assert(s.subrange(1, 5) =~= le(v as nat, 4));
    } else {
        let w = varint_word(v as u64, l as u64);
        lemma_word(v as u64, l as u64);
        lemma_le_first(w as nat, l);
        lemma_le_round_trip(w as nat, l);
        assert(w & 0xffu64 == w % 256) by (bit_vector);
        assert(seq![s[0]] + s.subrange(1, l as int) =~= e);
    }
}

/// Round trip of 64-bit varints at the tail: the tail form of the encoding of `v`, after any
/// bytes, decodes to `v` and its length.
pub proof fn law_varu64_tail_round_trip(v: u64, front: Seq<u8>)
    ensures
        varu64_dec_tail(front + tail_form(varu64_enc(v))) == Ok::<(nat, nat), Error>(
            (v as nat, varu64_len(v as nat)),
        ),
{
    let e = varu64_enc(v);
    law_varu64_round_trip(v, Seq::empty());
    assert(e + Seq::<u8>::empty() =~= e);
    let s = front + tail_form(e);
    let l = varu64_len(v as nat);
    assert(s.last() == e[0]);
    assert(seq![s.last()] + s.subrange(s.len() - l, s.len() - 1) =~= e);
}

/// Round trip of 32-bit varints at the tail: the tail form of the encoding of `v`, after any
/// bytes, decodes to `v` and its length.
pub proof fn law_varu32_tail_round_trip(v: u32, front: Seq<u8>)
    ensures
        varu32_dec_tail(front + tail_form(varu32_enc(v))) == Ok::<(nat, nat), Error>(
            (v as nat, varu32_len(v as nat)),
        ),
{
    let e = varu32_enc(v);
    law_varu32_round_trip(v, Seq::empty());
    assert(e + Seq::<u8>::empty() =~= e);
    let s = front + tail_form(e);
    let l = varu32_len(v as nat);
    assert(s.last() == e[0]);
    assert(seq![s.last()] + s.subrange(s.len() - l, s.len() - 1) =~= e);
}

/// Length of the 64-bit encoding of `v`
pub fn varu64_encoded_len(v: u64) -> (r: u8)
    ensures
        r as nat == varu64_len(v as nat),
{
    if v < 0x80 {
        1
    } else if v < 0x4000 {
        2
    } else if v < 0x20_0000 {
        3
    } else if v < 0x1000_0000 {
        4
    } else if v < 0x8_0000_0000 {
        5
    } else if v < 0x400_0000_0000 {
        6
    } else if v < 0x2_0000_0000_0000 {
        7
    } else if v < 0x100_0000_0000_0000 {
        8
    } else {
        9
    }
}

/// Length of the 32-bit encoding of `v`
pub fn varu32_encoded_len(v: u32) -> (r: u8)
    ensures
        r as nat == varu32_len(v as nat),
{
    let l = varu64_encoded_len(v as u64);
    if l >= 5 {
        5
    } else {
        l
    }
}

/// Length of an encoding, from its first byte
pub fn varu_decoded_len(first_byte: u8) -> (r: u8)
    ensures
        r as nat == decoded_len(first_byte),
{
    if first_byte & 0x1 != 0 {
        1
    } else if first_byte & 0x2 != 0 {
        2
    } else if first_byte & 0x4 != 0 {
        3
    } else if first_byte & 0x8 != 0 {
        4
    } else if first_byte & 0x10 != 0 {
        5
    } else if first_byte & 0x20 != 0 {
        6
    } else if first_byte & 0x40 != 0 {
        7
    } else if first_byte & 0x80 != 0 {
        8
    } else {
        9
    }
}

fn varint_min_exec(l: u8) -> (r: u64)
    ensures
        r as nat == varint_min(l as nat),
{
    if l == 2 {
        0x80
    } else if l == 3 {
        0x4000
    } else if l == 4 {
        0x20_0000
    } else if l == 5 {
        0x1000_0000
    } else if l == 6 {
        0x8_0000_0000
    } else if l == 7 {
        0x400_0000_0000
    } else if l == 8 {
        0x2_0000_0000_0000
    } else if l == 9 {
        0x100_0000_0000_0000
    } else {
        0
    }
}

/// The 64-bit encoding of `v`
pub fn varu64_encode(v: u64) -> (r: Vec<u8>)
    ensures
        r@ == varu64_enc(v),
{
    let l = varu64_encoded_len(v);
    if l == 9 {
        let mut out: Vec<u8> = Vec::new();
        out.push(0);
        let b = be_bytes(v as u128, 8);
        let le_b = reversed(b.as_slice());
        let mut i: usize = 0;
        while i < 8
            invariant
                le_b@ == le(v as nat, 8),
                le_b@.len() == 8 || i == 0,
                i <= 8,
                out@ == seq![0u8] + le_b@.subrange(0, i as int),
            decreases 8 - i,
        {
            proof { lemma_be_len(v as nat, 8); }
            out.push(le_b[i]);
            i = i + 1;
            assert(out@ =~= seq![0u8] + le_b@.subrange(0, i as int));
        }
        proof { lemma_be_len(v as nat, 8); }
        assert(le_b@.subrange(0, 8) =~= le_b@);
        out
    } else {
        let w: u64 = ((v << 1u64) | 1u64) << ((l - 1) as u64);
        let b = be_bytes(w as u128, l as usize);
        reversed(b.as_slice())
    }
}

/// The 32-bit encoding of `v`
pub fn varu32_encode(v: u32) -> (r: Vec<u8>)
    ensures
        r@ == varu32_enc(v),
{
    let l = varu32_encoded_len(v);
    if l == 5 {
        let mut out: Vec<u8> = Vec::new();
        out.push(0xF0);
        let b = be_bytes(v as u128, 4);
        let le_b = reversed(b.as_slice());
        let mut i: usize = 0;
        while i < 4
            invariant
                le_b@ == le(v as nat, 4),
                le_b@.len() == 4 || i == 0,
                i <= 4,
                out@ == seq![0xF0u8] + le_b@.subrange(0, i as int),
            decreases 4 - i,
        {
            proof { lemma_be_len(v as nat, 4); }
            out.push(le_b[i]);
            i = i + 1;
            assert(out@ =~= seq![0xF0u8] + le_b@.subrange(0, i as int));
        }
        proof { lemma_be_len(v as nat, 4); }
        assert(le_b@.subrange(0, 4) =~= le_b@);
        out
    } else {
        let w: u64 = (((v as u64) << 1u64) | 1u64) << ((l - 1) as u64);
        let b = be_bytes(w as u128, l as usize);
        reversed(b.as_slice())
    }
}

/// Write the 64-bit encoding of `v`
pub fn varu64_encode_to_writer<W: WriteBytes>(writer: &mut W, v: u64) -> (r: Result<(), Error>)
    requires
        old(writer).wf(),
    ensures
        wrote(*old(writer), *final(writer), r, varu64_enc(v)),
{
    let e = varu64_encode(v);
    writer.write(e.as_slice())
}

/// Write the 32-bit encoding of `v`
pub fn varu32_encode_to_writer<W: WriteBytes>(writer: &mut W, v: u32) -> (r: Result<(), Error>)
    requires
        old(writer).wf(),
    ensures
        wrote(*old(writer), *final(writer), r, varu32_enc(v)),
{
    let e = varu32_encode(v);
    writer.write(e.as_slice())
}

/// `e` with its first byte moved to the end.
fn to_tail_form(e: &Vec<u8>) -> (r: Vec<u8>)
    requires
        e@.len() >= 1,
    ensures
        r@ == tail_form(e@),
{
    let mut out: Vec<u8> = Vec::new();
    let mut i: usize = 1;
    while i < e.len()
        invariant
            1 <= i <= e@.len(),
            out@ == e@.subrange(1, i as int),
        decreases e@.len() - i,
    {
        out.push(e[i]);
        i = i + 1;
        assert(out@ =~= e@.subrange(1, i as int));
    }
    out.push(e[0]);
    assert(out@ =~= tail_form(e@));
    out
}

/// Write the 64-bit encoding of `v` at the tail of a double-ended buffer, in tail form
pub fn varu64_encode_to_tail(writer: &mut DeBytesWriter, v: u64) -> (r: Result<(), Error>)
    requires
        old(writer).wf(),
    ensures
        final(writer).wf(),
        final(final(writer).buf)@ == final(old(writer).buf)@,
        final(writer).buf@.len() == old(writer).buf@.len(),
        final(writer).head == old(writer).head,
        final(writer).head_data() == old(writer).head_data(),
        r is Ok <==> varu64_enc(v).len() <= old(writer).gap(),
        r is Ok ==> final(writer).tail == old(writer).tail - varu64_enc(v).len()
            && final(writer).tail_data() == tail_form(varu64_enc(v)) + old(writer).tail_data(),
        r is Err ==> r == Err::<(), Error>(Error::BufferOverflow),
{
    let e = varu64_encode(v);
    proof { law_varu64_round_trip(v, Seq::empty()); }
    let t = to_tail_form(&e);
    writer.write_tail(t.as_slice())
}

/// Write the 32-bit encoding of `v` at the tail of a double-ended buffer, in tail form
pub fn varu32_encode_to_tail(writer: &mut DeBytesWriter, v: u32) -> (r: Result<(), Error>)
    requires
        old(writer).wf(),
    ensures
        final(writer).wf(),
        final(final(writer).buf)@ == final(old(writer).buf)@,
        final(writer).buf@.len() == old(writer).buf@.len(),
        final(writer).head == old(writer).head,
        final(writer).head_data() == old(writer).head_data(),
        r is Ok <==> varu32_enc(v).len() <= old(writer).gap(),
        r is Ok ==> final(writer).tail == old(writer).tail - varu32_enc(v).len()
            && final(writer).tail_data() == tail_form(varu32_enc(v)) + old(writer).tail_data(),
        r is Err ==> r == Err::<(), Error>(Error::BufferOverflow),
{
    let e = varu32_encode(v);
    proof { law_varu32_round_trip(v, Seq::empty()); }
    let t = to_tail_form(&e);
    writer.write_tail(t.as_slice())
}

/// Decode a 64-bit varint of length `len` (from `varu_decoded_len(first_byte)`), given its
/// first byte and the bytes after it
fn varu64_decode(len: u8, first_byte: u8, bytes: &[u8]) -> (r: Result<u64, Error>)
    requires
        len as nat == decoded_len(first_byte),
    ensures
        r is Ok <==> bytes@.len() + 1 >= len
            && canonical(varu64_value(first_byte, bytes@.subrange(0, len - 1)), len as nat),
        r is Ok ==> r.unwrap() as nat == varu64_value(first_byte, bytes@.subrange(0, len - 1)),
        r is Err ==> (bytes@.len() + 1 < len ==> r == Err::<u64, Error>(Error::PrematureEndOfInput))
            && (bytes@.len() + 1 >= len ==> r == Err::<u64, Error>(Error::InvalidVarintEncoding)),
{
    if bytes.len() < (len - 1) as usize {
        return Err(Error::PrematureEndOfInput);
    }
    proof { lemma_pow256_values(); }
    let result: u64 = if len == 9 {
        let more = vstd::slice::slice_subrange(bytes, 0, 8);
        let r = reversed(more);
        proof { lemma_be_val_bound(r@); }
        be_number(r.as_slice()) as u64
    } else {
        let mut enc: Vec<u8> = Vec::new();
        enc.push(first_byte);
        let mut i: usize = 0;
        while i + 1 < len as usize
            invariant
                len <= 8,
                i + 1 <= len,
                bytes@.len() + 1 >= len,
                enc@ == seq![first_byte] + bytes@.subrange(0, i as int),
            decreases len - i,
        {
            enc.push(bytes[i]);
            i = i + 1;
            assert(enc@ =~= seq![first_byte] + bytes@.subrange(0, i as int));
        }
        let r = reversed(enc.as_slice());
        proof {
            lemma_be_val_bound(r@);
            lemma_pow256_mono8(r@.len());
        }
        (be_number(r.as_slice()) as u64) >> (len as u64)
    };
    if len == 1 || result >= varint_min_exec(len) {
        Ok(result)
    } else {
        Err(Error::InvalidVarintEncoding)
    }
}

proof fn lemma_pow256_mono8(n: nat)
    requires
        n <= 8,
    ensures
        pow256(n) <= 0x1_0000_0000_0000_0000,
    decreases 8 - n,
{
    lemma_pow256_values();
    if n < 8 {
        lemma_pow256_mono8(n + 1);
    }
}

/// Decode a 32-bit varint of length `len` (at most 5), given its first byte and the bytes
/// after it
fn varu32_decode(len: u8, first_byte: u8, bytes: &[u8]) -> (r: Result<u32, Error>)
    requires
        len as nat == decoded_len(first_byte),
        len <= 5,
    ensures
        r is Ok <==> bytes@.len() + 1 >= len
            && canonical(varu32_value(first_byte, bytes@.subrange(0, len - 1)), len as nat),
        r is Ok ==> r.unwrap() as nat == varu32_value(first_byte, bytes@.subrange(0, len - 1)),
        r is Err ==> (bytes@.len() + 1 < len ==> r == Err::<u32, Error>(Error::PrematureEndOfInput))
            && (bytes@.len() + 1 >= len ==> r == Err::<u32, Error>(Error::InvalidVarintEncoding)),
{
    if bytes.len() < (len - 1) as usize {
        return Err(Error::PrematureEndOfInput);
    }
    proof { lemma_pow256_values(); }
    let result: u64 = if len == 5 {
        let more = vstd::slice::slice_subrange(bytes, 0, 4);
        let r = reversed(more);
        proof { lemma_be_val_bound(r@); }
        be_number(r.as_slice()) as u64
    } else {
        let mut enc: Vec<u8> = Vec::new();
        enc.push(first_byte);
        let mut i: usize = 0;
        while i + 1 < len as usize
            invariant
                len <= 4,
                i + 1 <= len,
                bytes@.len() + 1 >= len,
                enc@ == seq![first_byte] + bytes@.subrange(0, i as int),
            decreases len - i,
        {
            enc.push(bytes[i]);
            i = i + 1;
            assert(enc@ =~= seq![first_byte] + bytes@.subrange(0, i as int));
        }
        let r = reversed(enc.as_slice());
        proof {
            lemma_be_val_bound(r@);
            lemma_pow256_mono(r@.len(), 4);
        }
        let x: u64 = be_number(r.as_slice()) as u64;
        let y: u64 = x >> (len as u64);
        assert(y <= x) by (bit_vector)
            requires
                y == x >> (len as u64),
        ;
        y
    };
    if len == 1 || result >= varint_min_exec(len) {
        Ok(result as u32)
    } else {
        Err(Error::InvalidVarintEncoding)
    }
}

/// Decode a 64-bit varint at the start of `bytes`: the value and the length of its encoding
pub fn varu64_decode_from_slice(bytes: &[u8]) -> (r: Result<(u64, u8), Error>)
    ensures
        match r {
            Ok((v, l)) => varu64_dec(bytes@) == Ok::<(nat, nat), Error>((v as nat, l as nat)),
            Err(e) => varu64_dec(bytes@) == Err::<(nat, nat), Error>(e),
        },
{
    if bytes.len() == 0 {
        return Err(Error::PrematureEndOfInput);
    }
    let l = varu_decoded_len(bytes[0]);
    let more = vstd::slice::slice_subrange(bytes, 1, bytes.len());
    if bytes.len() >= l as usize {
        assert(more@.subrange(0, l - 1) =~= bytes@.subrange(1, l as int));
    }
    match varu64_decode(l, bytes[0], more) {
        Ok(v) => Ok((v, l)),
        Err(e) => Err(e),
    }
}

/// Read a 64-bit varint from the head of `reader`; on failure the reader is left as it was
pub fn varu64_decode_from_reader(reader: &mut DeBytesReader) -> (r: Result<u64, Error>)
    ensures
        match r {
            Ok(v) => varu64_dec(old(reader)@) is Ok && varu64_dec(old(reader)@).unwrap().0 == v as nat
                && final(reader)@ == old(reader)@.subrange(
                varu64_dec(old(reader)@).unwrap().1 as int,
                old(reader)@.len() as int,
            ),
            Err(e) => varu64_dec(old(reader)@) == Err::<(nat, nat), Error>(e) && final(reader)@ == old(reader)@,
        },
{
    match varu64_decode_from_slice(reader.remaining_buffer()) {
        Ok((v, l)) => {
            reader.advance(l as usize);
            Ok(v)
        },
        Err(e) => Err(e),
    }
}

/// Read a 64-bit varint in tail form from the tail of `reader`; on failure the reader is left
/// as it was
pub fn varu64_decode_from_tail(reader: &mut DeBytesReader) -> (r: Result<u64, Error>)
    ensures
        match r {
            Ok(v) => varu64_dec_tail(old(reader)@) is Ok && varu64_dec_tail(old(reader)@).unwrap().0 == v as nat
                && final(reader)@ == old(reader)@.subrange(
                0,
                old(reader)@.len() - varu64_dec_tail(old(reader)@).unwrap().1,
            ),
            Err(e) => varu64_dec_tail(old(reader)@) == Err::<(nat, nat), Error>(e) && final(reader)@ == old(reader)@,
        },
{
    let s = reader.remaining_buffer();
    if s.len() == 0 {
        return Err(Error::PrematureEndOfInput);
    }
    let first = s[s.len() - 1];
    let l = varu_decoded_len(first);
    if s.len() < l as usize {
        return Err(Error::PrematureEndOfInput);
    }
    let more = vstd::slice::slice_subrange(s, s.len() - l as usize, s.len() - 1);
    let ghost t = seq![first] + more@;
    assert(t[0] == first);
    assert(t.subrange(1, l as int) =~= more@);
    assert(more@.subrange(0, l - 1) =~= more@);
    assert(s@.last() == first);
    assert(t =~= seq![s@.last()] + s@.subrange(s@.len() - decoded_len(s@.last()), s@.len() - 1));
    match varu64_decode(l, first, more) {
        Ok(v) => {
            reader.advance_tail(l as usize);
            Ok(v)
        },
        Err(e) => Err(e),
    }
}

/// Decode a 32-bit varint at the start of `bytes`: the value and the length of its encoding
pub fn varu32_decode_from_slice(bytes: &[u8]) -> (r: Result<(u32, u8), Error>)
    ensures
        match r {
            Ok((v, l)) => varu32_dec(bytes@) == Ok::<(nat, nat), Error>((v as nat, l as nat)),
            Err(e) => varu32_dec(bytes@) == Err::<(nat, nat), Error>(e),
        },
{
    if bytes.len() == 0 {
        return Err(Error::PrematureEndOfInput);
    }
    let l = varu_decoded_len(bytes[0]);
    if l > 5 {
        return Err(Error::InvalidVarintEncoding);
    }
    if bytes.len() < l as usize {
        return Err(Error::PrematureEndOfInput);
    }
    if l == 5 && bytes[0] != 0xF0 {
        return Err(Error::InvalidVarintEncoding);
    }
    let more = vstd::slice::slice_subrange(bytes, 1, bytes.len());
    if bytes.len() >= l as usize {
        assert(more@.subrange(0, l - 1) =~= bytes@.subrange(1, l as int));
    }
    match varu32_decode(l, bytes[0], more) {
        Ok(v) => Ok((v, l)),
        Err(e) => Err(e),
    }
}

/// Read a 32-bit varint from the head of `reader`; on failure the reader is left as it was
pub fn varu32_decode_from_reader(reader: &mut DeBytesReader) -> (r: Result<u32, Error>)
    ensures
        match r {
            Ok(v) => varu32_dec(old(reader)@) is Ok && varu32_dec(old(reader)@).unwrap().0 == v as nat
                && final(reader)@ == old(reader)@.subrange(
                varu32_dec(old(reader)@).unwrap().1 as int,
                old(reader)@.len() as int,
            ),
            Err(e) => varu32_dec(old(reader)@) == Err::<(nat, nat), Error>(e) && final(reader)@ == old(reader)@,
        },
{
    match varu32_decode_from_slice(reader.remaining_buffer()) {
        Ok((v, l)) => {
            reader.advance(l as usize);
            Ok(v)
        },
        Err(e) => Err(e),
    }
}

/// Read a 32-bit varint in tail form from the tail of `reader`; on failure the reader is left
/// as it was
pub fn varu32_decode_from_tail(reader: &mut DeBytesReader) -> (r: Result<u32, Error>)
    ensures
        match r {
            Ok(v) => varu32_dec_tail(old(reader)@) is Ok && varu32_dec_tail(old(reader)@).unwrap().0 == v as nat
                && final(reader)@ == old(reader)@.subrange(
                0,
                old(reader)@.len() - varu32_dec_tail(old(reader)@).unwrap().1,
            ),
            Err(e) => varu32_dec_tail(old(reader)@) == Err::<(nat, nat), Error>(e) && final(reader)@ == old(reader)@,
        },
{
    let s = reader.remaining_buffer();
    if s.len() == 0 {
        return Err(Error::PrematureEndOfInput);
    }
    let first = s[s.len() - 1];
    let l = varu_decoded_len(first);
    if l > 5 {
        return Err(Error::InvalidVarintEncoding);
    }
    if s.len() < l as usize {
        return Err(Error::PrematureEndOfInput);
    }
    if l == 5 && first != 0xF0 {
        return Err(Error::InvalidVarintEncoding);
    }
    let more = vstd::slice::slice_subrange(s, s.len() - l as usize, s.len() - 1);
    let ghost t = seq![first] + more@;
    assert(t[0] == first);
    assert(t.subrange(1, l as int) =~= more@);
    assert(more@.subrange(0, l - 1) =~= more@);
    assert(s@.last() == first);
    assert(t =~= seq![s@.last()] + s@.subrange(s@.len() - decoded_len(s@.last()), s@.len() - 1));
    match varu32_decode(l, first, more) {
        Ok(v) => {
            reader.advance_tail(l as usize);
            Ok(v)
        },
        Err(e) => Err(e),
    }
}

proof fn lemma_le_val_first(x: Seq<u8>)
    requires
        x.len() >= 1,
    ensures
        le_val(x) % 256 == x[0] as nat,
{
    let r = x.reverse();
    assert(r.last() == x[0]);
    let a = be_val(r.drop_last());
    assert((a * 256 + x[0] as nat) % 256 == x[0] as nat) by (nonlinear_arith)
        requires
            x[0] < 256,
    ;
}

proof fn lemma_le_le_val(x: Seq<u8>)
    ensures
        le(le_val(x), x.len()) == x,
{
    crate::ordering::lemma_be_be_val(x.reverse());
    assert(x.reverse().reverse() =~= x);
}

/// The short forms: a word whose first byte says length `l` (at most 8) and whose value is
/// canonical is the word of that value.
proof fn lemma_word_back(x: Seq<u8>, l: nat)
    requires
        1 <= l <= 8,
        x.len() == l,
        decoded_len(x[0]) == l,
        canonical(((le_val(x) as u64) >> (l as u64)) as nat, l),
    ensures
        ({
            let v = (le_val(x) as u64) >> (l as u64);
            &&& varu64_len(v as nat) == l
            &&& le(varint_word(v, l as u64) as nat, l) == x
        }),
{
    lemma_pow256_values();
    crate::ordering::lemma_be_val_bound(x.reverse());
    lemma_le_val_first(x);
    let w = le_val(x) as u64;
    let v = w >> (l as u64);
    let f = x[0];
    assert(w & 0xffu64 == w % 256) by (bit_vector);
    assert((w & 0xffu64) as u8 == f);
    if l == 0 {
        } else if l == 1 {
            assert(((f & 0x1 != 0)));
            assert(((v << 1u64) | 1u64) << 0u64 == w && v < 0x80u64) by (bit_vector)
                requires
                w < 0x100u64,
                    (w & 0xffu64) as u8 == f,
                f & 0x1u8 != 0u8,
                    v == w >> 1u64,
            ;
        } else if l == 2 {
            assert(((f & 0x1 == 0) && (f & 0x2 != 0)));
            assert(((v << 1u64) | 1u64) << 1u64 == w && v < 0x4000u64) by (bit_vector)
                requires
                w < 0x1_0000u64,
                    (w & 0xffu64) as u8 == f,
                f & 0x1u8 == 0u8,
                f & 0x2u8 != 0u8,
                    v == w >> 2u64,
            ;
        } else if l == 3 {
            assert(((f & 0x1 == 0) && (f & 0x2 == 0) && (f & 0x4 != 0)));
            assert(((v << 1u64) | 1u64) << 2u64 == w && v < 0x20_0000u64) by (bit_vector)
                requires
                w < 0x100_0000u64,
                    (w & 0xffu64) as u8 == f,
                f & 0x1u8 == 0u8,
                f & 0x2u8 == 0u8,
                f & 0x4u8 != 0u8,
                    v == w >> 3u64,
            ;
        } else if l == 4 {
            assert(((f & 0x1 == 0) && (f & 0x2 == 0) && (f & 0x4 == 0) && (f & 0x8 != 0)));
            assert(((v << 1u64) | 1u64) << 3u64 == w && v < 0x1000_0000u64) by (bit_vector)
                requires
                w < 0x1_0000_0000u64,
                    (w & 0xffu64) as u8 == f,
                f & 0x1u8 == 0u8,
                f & 0x2u8 == 0u8,
                f & 0x4u8 == 0u8,
                f & 0x8u8 != 0u8,
                    v == w >> 4u64,
            ;
        } else if l == 5 {
            assert(((f & 0x1 == 0) && (f & 0x2 == 0) && (f & 0x4 == 0) && (f & 0x8 == 0) && (f & 0x10 != 0)));
            assert(((v << 1u64) | 1u64) << 4u64 == w && v < 0x8_0000_0000u64) by (bit_vector)
                requires
                w < 0x100_0000_0000u64,
                    (w & 0xffu64) as u8 == f,
                f & 0x1u8 == 0u8,
                f & 0x2u8 == 0u8,
                f & 0x4u8 == 0u8,
                f & 0x8u8 == 0u8,
                f & 0x10u8 != 0u8,
                    v == w >> 5u64,
            ;
        } else if l == 6 {
            assert(((f & 0x1 == 0) && (f & 0x2 == 0) && (f & 0x4 == 0) && (f & 0x8 == 0) && (f & 0x10 == 0) && (f & 0x20 != 0)));
            assert(((v << 1u64) | 1u64) << 5u64 == w && v < 0x400_0000_0000u64) by (bit_vector)
                requires
                w < 0x1_0000_0000_0000u64,
                    (w & 0xffu64) as u8 == f,
                f & 0x1u8 == 0u8,
                f & 0x2u8 == 0u8,
                f & 0x4u8 == 0u8,
                f & 0x8u8 == 0u8,
                f & 0x10u8 == 0u8,
                f & 0x20u8 != 0u8,
                    v == w >> 6u64,
            ;
        } else if l == 7 {
            assert(((f & 0x1 == 0) && (f & 0x2 == 0) && (f & 0x4 == 0) && (f & 0x8 == 0) && (f & 0x10 == 0) && (f & 0x20 == 0) && (f & 0x40 != 0)));
            assert(((v << 1u64) | 1u64) << 6u64 == w && v < 0x2_0000_0000_0000u64) by (bit_vector)
                requires
                w < 0x100_0000_0000_0000u64,
                    (w & 0xffu64) as u8 == f,
                f & 0x1u8 == 0u8,
                f & 0x2u8 == 0u8,
                f & 0x4u8 == 0u8,
                f & 0x8u8 == 0u8,
                f & 0x10u8 == 0u8,
                f & 0x20u8 == 0u8,
                f & 0x40u8 != 0u8,
                    v == w >> 7u64,
            ;
        } else if l == 8 {
            assert(((f & 0x1 == 0) && (f & 0x2 == 0) && (f & 0x4 == 0) && (f & 0x8 == 0) && (f & 0x10 == 0) && (f & 0x20 == 0) && (f & 0x40 == 0) && (f & 0x80 != 0)));
            assert(((v << 1u64) | 1u64) << 7u64 == w && v < 0x100_0000_0000_0000u64) by (bit_vector)
                requires
                    (w & 0xffu64) as u8 == f,
                f & 0x1u8 == 0u8,
                f & 0x2u8 == 0u8,
                f & 0x4u8 == 0u8,
                f & 0x8u8 == 0u8,
                f & 0x10u8 == 0u8,
                f & 0x20u8 == 0u8,
                f & 0x40u8 == 0u8,
                f & 0x80u8 != 0u8,
                    v == w >> 8u64,
            ;
        }
    lemma_le_le_val(x);
}

/// Decoding a 64-bit varint and encoding the value again gives the bytes that were decoded:
/// the encoding is canonical.
pub proof fn lemma_varu64_dec_enc(s: Seq<u8>)
    requires
        varu64_dec(s) is Ok,
    ensures
        ({
            let (v, l) = varu64_dec(s).unwrap();
            &&& v < 0x1_0000_0000_0000_0000
            &&& s.subrange(0, l as int) == varu64_enc(v as u64)
        }),
{
    let l = decoded_len(s[0]);
    let x = s.subrange(0, l as int);
    lemma_pow256_values();
    if l == 9 {
        let f = s[0];
        assert(f == 0) by (bit_vector)
            requires
                f & 1u8 == 0u8, f & 2u8 == 0u8, f & 4u8 == 0u8, f & 8u8 == 0u8,
                f & 0x10u8 == 0u8, f & 0x20u8 == 0u8, f & 0x40u8 == 0u8, f & 0x80u8 == 0u8,
        ;
        let more = s.subrange(1, 9);
        crate::ordering::lemma_be_val_bound(more.reverse());
        lemma_le_le_val(more);
        assert(x =~= seq![0u8] + more);
    } else {
        assert(seq![s[0]] + s.subrange(1, l as int) =~= x);
        lemma_word_back(x, l);
    }
}

/// Decoding a 32-bit varint and encoding the value again gives the bytes that were decoded:
/// the encoding is canonical.
pub proof fn lemma_varu32_dec_enc(s: Seq<u8>)
    requires
        varu32_dec(s) is Ok,
    ensures
        ({
            let (v, l) = varu32_dec(s).unwrap();
            &&& v < 0x1_0000_0000
            &&& s.subrange(0, l as int) == varu32_enc(v as u32)
        }),
{
    let l = decoded_len(s[0]);
    let x = s.subrange(0, l as int);
    lemma_pow256_values();
    if l == 5 {
        let more = s.subrange(1, 5);
        crate::ordering::lemma_be_val_bound(more.reverse());
        lemma_le_le_val(more);
        assert(x =~= seq![0xF0u8] + more);
    } else {
        assert(seq![s[0]] + s.subrange(1, l as int) =~= x);
        lemma_word_back(x, l);
        crate::ordering::lemma_be_val_bound(x.reverse());
        lemma_pow256_mono(l, 4);
        let w = le_val(x) as u64;
        let sh = l as u64;
        let v = w >> sh;
        assert(v <= w) by (bit_vector)
            requires
                v == w >> sh,
        ;
    }
}

/// Tail form of `varu64_dec_enc`.
pub proof fn lemma_varu64_dec_tail_enc(s: Seq<u8>)
    requires
        varu64_dec_tail(s) is Ok,
    ensures
        ({
            let (v, l) = varu64_dec_tail(s).unwrap();
            &&& v < 0x1_0000_0000_0000_0000
            &&& l <= s.len()
            &&& s.subrange(s.len() - l, s.len() as int) == tail_form(varu64_enc(v as u64))
        }),
{
    let l = decoded_len(s.last());
    let t = seq![s.last()] + s.subrange(s.len() - l, s.len() - 1);
    lemma_varu64_dec_enc(t);
    assert(t.subrange(0, l as int) =~= t);
    assert(tail_form(t) =~= s.subrange(s.len() - l, s.len() as int));
}

/// Tail form of `varu32_dec_enc`.
pub proof fn lemma_varu32_dec_tail_enc(s: Seq<u8>)
    requires
        varu32_dec_tail(s) is Ok,
    ensures
        ({
            let (v, l) = varu32_dec_tail(s).unwrap();
            &&& v < 0x1_0000_0000
            &&& l <= s.len()
            &&& s.subrange(s.len() - l, s.len() as int) == tail_form(varu32_enc(v as u32))
        }),
{
    let l = decoded_len(s.last());
    let t = seq![s.last()] + s.subrange(s.len() - l, s.len() - 1);
    lemma_varu32_dec_enc(t);
    assert(t.subrange(0, l as int) =~= t);
    assert(tail_form(t) =~= s.subrange(s.len() - l, s.len() as int));
}

/// Variable-length serialization of unsigned integers
pub trait VarUInt: Sized {
    /// The value as a number.
    spec fn spec_val(&self) -> nat;

    /// The encoding of the value.
    spec fn spec_enc(&self) -> Seq<u8>;

    /// Decoding at the start of `s`: the value and the length of its encoding.
    spec fn spec_dec(s: Seq<u8>) -> Result<(nat, nat), Error>;

    /// Length of the encoding in bytes
    fn varu_encoded_len(&self) -> (r: u8)
        ensures
            r as nat == self.spec_enc().len(),
    ;

    /// Length of an encoding, from its first byte
    fn varu_decoded_len(first_byte: u8) -> (r: u8)
        ensures
            r as nat == decoded_len(first_byte),
    ;

    /// Write the encoding to `writer`
    fn varu_to_writer<W: WriteBytes>(&self, writer: &mut W) -> (r: Result<(), Error>)
        requires
            old(writer).wf(),
        ensures
            wrote(*old(writer), *final(writer), r, self.spec_enc()),
    ;

    /// Read an encoding from the head of `reader`; on failure the reader is left as it was
    fn varu_from_reader(reader: &mut DeBytesReader) -> (r: Result<Self, Error>)
        ensures
            match r {
                Ok(v) => Self::spec_dec(old(reader)@) is Ok && Self::spec_dec(old(reader)@).unwrap().0 == v.spec_val()
                    && final(reader)@ == old(reader)@.subrange(
                    Self::spec_dec(old(reader)@).unwrap().1 as int,
                    old(reader)@.len() as int,
                ),
                Err(e) => Self::spec_dec(old(reader)@) == Err::<(nat, nat), Error>(e) && final(reader)@ == old(reader)@,
            },
    ;

    /// Decode an encoding at the start of `bytes`: the value and the length of its encoding
    fn varu_from_slice(bytes: &[u8]) -> (r: Result<(Self, u8), Error>)
        ensures
            match r {
                Ok((v, l)) => Self::spec_dec(bytes@) == Ok::<(nat, nat), Error>((v.spec_val(), l as nat)),
                Err(e) => Self::spec_dec(bytes@) == Err::<(nat, nat), Error>(e),
            },
    ;

    /// Write the encoding into the start of `bytes`, which must be long enough; returns its
    /// length
    fn varu_to_slice(&self, bytes: &mut [u8]) -> (r: u8)
        requires
            self.spec_enc().len() <= old(bytes)@.len(),
        ensures
            r as nat == self.spec_enc().len(),
            final(bytes)@ == self.spec_enc() + old(bytes)@.subrange(r as int, old(bytes)@.len() as int),
    ;
}

/// Copy `e` into the start of `bytes`.
fn copy_into(bytes: &mut [u8], e: &Vec<u8>)
    requires
        e@.len() <= old(bytes)@.len(),
    ensures
        final(bytes)@ == e@ + old(bytes)@.subrange(e@.len() as int, old(bytes)@.len() as int),
{
    let mut i: usize = 0;
    while i < e.len()
        invariant
            i <= e@.len() <= bytes@.len(),
            bytes@.len() == old(bytes)@.len(),
            forall|k: int| 0 <= k < i ==> bytes@[k] == e@[k],
            forall|k: int| i <= k < bytes@.len() ==> bytes@[k] == old(bytes)@[k],
        decreases e@.len() - i,
    {
        bytes[i] = e[i];
        i = i + 1;
    }
    assert(bytes@ =~= e@ + old(bytes)@.subrange(e@.len() as int, old(bytes)@.len() as int));
}

impl VarUInt for u64 {
    open spec fn spec_val(&self) -> nat {
        *self as nat
    }

    open spec fn spec_enc(&self) -> Seq<u8> {
        varu64_enc(*self)
    }

    open spec fn spec_dec(s: Seq<u8>) -> Result<(nat, nat), Error> {
        varu64_dec(s)
    }

    fn varu_encoded_len(&self) -> (r: u8) {
        proof {
            law_varu64_round_trip(*self, Seq::empty());
        }
        varu64_encoded_len(*self)
    }

    fn varu_decoded_len(first_byte: u8) -> (r: u8) {
        varu_decoded_len(first_byte)
    }

    fn varu_to_writer<W: WriteBytes>(&self, writer: &mut W) -> (r: Result<(), Error>) {
        varu64_encode_to_writer(writer, *self)
    }

    fn varu_from_reader(reader: &mut DeBytesReader) -> (r: Result<Self, Error>) {
        varu64_decode_from_reader(reader)
    }

    fn varu_from_slice(bytes: &[u8]) -> (r: Result<(Self, u8), Error>) {
        varu64_decode_from_slice(bytes)
    }

    fn varu_to_slice(&self, bytes: &mut [u8]) -> (r: u8) {
        let e = varu64_encode(*self);
        copy_into(bytes, &e);
        proof {
            law_varu64_round_trip(*self, Seq::empty());
        }
        e.len() as u8
    }
}

impl VarUInt for u32 {
    open spec fn spec_val(&self) -> nat {
        *self as nat
    }

    open spec fn spec_enc(&self) -> Seq<u8> {
        varu32_enc(*self)
    }

    open spec fn spec_dec(s: Seq<u8>) -> Result<(nat, nat), Error> {
        varu32_dec(s)
    }

    fn varu_encoded_len(&self) -> (r: u8) {
        proof {
            law_varu32_round_trip(*self, Seq::empty());
        }
        varu32_encoded_len(*self)
    }

    fn varu_decoded_len(first_byte: u8) -> (r: u8) {
        varu_decoded_len(first_byte)
    }

    fn varu_to_writer<W: WriteBytes>(&self, writer: &mut W) -> (r: Result<(), Error>) {
        varu32_encode_to_writer(writer, *self)
    }

    fn varu_from_reader(reader: &mut DeBytesReader) -> (r: Result<Self, Error>) {
        varu32_decode_from_reader(reader)
    }

    fn varu_from_slice(bytes: &[u8]) -> (r: Result<(Self, u8), Error>) {
        varu32_decode_from_slice(bytes)
    }

    fn varu_to_slice(&self, bytes: &mut [u8]) -> (r: u8) {
        let e = varu32_encode(*self);
        copy_into(bytes, &e);
        proof {
            law_varu32_round_trip(*self, Seq::empty());
        }
        e.len() as u8
    }
}

} // verus!
