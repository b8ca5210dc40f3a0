//! Order-preserving encoding of primitive values.
//!
//! Unsigned integers are written big-endian; signed integers are first shifted by `2^(bits-1)`
//! (their sign bit flipped) so that the whole range maps monotonically onto the unsigned one.
//! Floating-point numbers are handled through their IEEE-754 bit patterns: positive ones get
//! their sign bit set, negative ones are complemented. Under `Descending` order every byte is
//! complemented. Booleans are one byte, 0 or 1; chars are their `u32` code point.
use vstd::prelude::*;
use crate::buf::{DeBytesReader, WriteBytes, fits, room_after};
use crate::errors::Error;
use crate::ordering::{
    be, be_val, complement, lemma_be_len, lemma_be_order, lemma_be_val_be, lemma_be_val_bound,
    lemma_complement_order, lemma_ordered_involutive, le, le_val, lex_lt,
    ordered, pow256,
};
use crate::params::{EncodingParams, Endianness, Order};

verus! {

/// Serialization data format version
pub const VERSION: u8 = 1;

/// Whether bytes are laid out least significant first, given the machine's own layout.
pub open spec fn is_little(e: Endianness, native_little: bool) -> bool {
    match e {
        Endianness::Little => true,
        Endianness::Big => false,
        Endianness::Native => native_little,
    }
}

/// The `n` low bytes of `v` in the given byte order.
pub open spec fn raw(v: nat, n: nat, little: bool) -> Seq<u8> {
    if little {
        le(v, n)
    } else {
        be(v, n)
    }
}

/// The number written by `s` in the given byte order.
pub open spec fn raw_val(s: Seq<u8>, little: bool) -> nat {
    if little {
        le_val(s)
    } else {
        be_val(s)
    }
}

/// Half of the range of an `n`-byte integer: the shift that maps signed onto unsigned values.
pub open spec fn half(n: nat) -> nat {
    pow256(n) / 2
}

/// The unsigned number that stands for integer `v` of `n` bytes.
pub open spec fn int_key(v: int, n: nat, signed: bool) -> nat {
    if signed {
        (v + half(n)) as nat
    } else {
        v as nat
    }
}

/// Whether `v` is a value of the `n`-byte integer type.
pub open spec fn int_in_range(v: int, n: nat, signed: bool) -> bool {
    if signed {
        -half(n) <= v < half(n)
    } else {
        0 <= v < pow256(n)
    }
}

/// Encoding of integer `v` of `n` bytes.
pub open spec fn int_enc(v: int, n: nat, signed: bool, order: Order, little: bool) -> Seq<u8> {
    ordered(raw(int_key(v, n, signed), n, little), order)
}

/// The integer of `n` bytes that `s` encodes.
pub open spec fn int_dec(s: Seq<u8>, n: nat, signed: bool, order: Order, little: bool) -> int {
    let k = raw_val(ordered(s, order), little);
    if signed {
        k - half(n)
    } else {
        k as int
    }
}

/// The unsigned number that stands for a float's bit pattern of `n` bytes. With big-endian
/// layout, positive numbers get their sign bit set and negative ones are complemented, so
/// that the numbers sort as the floats do.
pub open spec fn float_key(bits: nat, n: nat, masked: bool) -> nat {
    if !masked {
        bits
    } else if bits >= half(n) {
        (pow256(n) - 1 - bits) as nat
    } else {
        bits + half(n)
    }
}

/// The bit pattern that key `k` stands for.
pub open spec fn float_from_key(k: nat, n: nat, masked: bool) -> nat {
    if !masked {
        k
    } else if k >= half(n) {
        (k - half(n)) as nat
    } else {
        (pow256(n) - 1 - k) as nat
    }
}

/// Encoding of a float of `n` bytes given by its bit pattern; `masked` for big-endian layout.
pub open spec fn float_enc(bits: nat, n: nat, order: Order, masked: bool, little: bool) -> Seq<u8> {
    ordered(raw(float_key(bits, n, masked), n, little), order)
}

/// The bit pattern of the float of `n` bytes that `s` encodes.
pub open spec fn float_dec(s: Seq<u8>, n: nat, order: Order, masked: bool, little: bool) -> nat {
    float_from_key(raw_val(ordered(s, order), little), n, masked)
}

/// The place of a float in the order of the real line, from its bit pattern of `n` bytes:
/// IEEE-754 numbers are sign and magnitude, and negative zero sorts just below positive zero.
pub open spec fn float_rank(bits: nat, n: nat) -> int {
    if bits >= half(n) {
        -((bits - half(n)) as int) - 1
    } else {
        bits as int
    }
}

/// A Unicode scalar value: a code point outside the surrogate range.
pub open spec fn valid_scalar(u: nat) -> bool {
    u < 0xD800 || (0xE000 <= u && u <= 0x10FFFF)
}

/// `after` is `before` with `s` written at its head.
pub open spec fn appended<W: WriteBytes>(before: W, after: W, s: Seq<u8>) -> bool {
    &&& after.wf()
    &&& after.written() == before.written() + s
    &&& after.held() == before.held()
    &&& after.room() == room_after(before.room(), s.len())
}

/// What writing the `n`-byte encoding `s` to a writer produced.
pub open spec fn wrote<W: WriteBytes>(before: W, after: W, r: Result<(), Error>, s: Seq<u8>) -> bool {
    &&& (r is Ok <==> fits(before.room(), s.len()))
    &&& r is Ok ==> appended(before, after, s)
    &&& r is Err ==> r == Err::<(), Error>(Error::BufferOverflow)
}

/// What reading `n` bytes from a reader produced: `Ok` exactly when there were `n` bytes, and
/// then the first `n` of them were consumed.
pub open spec fn took<T>(before: Seq<u8>, after: Seq<u8>, n: nat, r: Result<T, Error>) -> bool {
    &&& (r is Ok <==> n <= before.len())
    &&& r is Ok ==> after == before.subrange(n as int, before.len() as int)
    &&& r is Err ==> r == Err::<T, Error>(Error::PrematureEndOfInput) && after == before
}

/// Relies on u16::to_ne_bytes: the two bytes of `v` in the machine's byte order, which is
/// big-endian or little-endian.
#[verifier::external_body]
fn native_bytes_u16(v: u16) -> (r: [u8; 2])
    ensures
        r@ == be(v as nat, 2) || r@ == le(v as nat, 2),
{
    v.to_ne_bytes()
}

/// Whether the machine lays integers out least significant byte first.
fn native_little() -> (r: bool) {
    let b = native_bytes_u16(1);
    b[0] == 1
}

pub(crate) proof fn lemma_pow256_mono(i: nat, j: nat)
    requires
        i <= j,
    ensures
        pow256(i) <= pow256(j),
    decreases j,
{
    if i < j {
        lemma_pow256_mono(i, (j - 1) as nat);
    }
}

pub(crate) proof fn lemma_pow256_values()
    ensures
        pow256(1) == 0x100,
        pow256(2) == 0x1_0000,
        pow256(3) == 0x100_0000,
        pow256(4) == 0x1_0000_0000,
        pow256(5) == 0x100_0000_0000,
        pow256(6) == 0x1_0000_0000_0000,
        pow256(7) == 0x100_0000_0000_0000,
        pow256(8) == 0x1_0000_0000_0000_0000,
        pow256(15) == 0x1_0000_0000_0000_0000_0000_0000_0000_00,
        pow256(16) == 0x1_0000_0000_0000_0000_0000_0000_0000_0000,
{
    reveal_with_fuel(pow256, 17);
}

/// The `n` low bytes of `v`, most significant first.
pub(crate) fn be_bytes(v: u128, n: usize) -> (r: Vec<u8>)
    ensures
        r@ == be(v as nat, n as nat),
{
    let mut out: Vec<u8> = Vec::new();
    let mut k: usize = 0;
    while k < n
        invariant
            k <= n,
            out@.len() == k,
        decreases n - k,
    {
        out.push(0);
        k = k + 1;
    }
    let mut x: u128 = v;
    let mut i: usize = n;
    while i > 0
        invariant
            i <= n,
            out@.len() == n,
            be(v as nat, n as nat) == be(x as nat, i as nat) + out@.subrange(i as int, n as int),
        decreases i,
    {
        let ghost prev = out@;
        i = i - 1;
        out.set(i, (x % 256) as u8);
        assert(be(x as nat, (i + 1) as nat) == be((x / 256) as nat, i as nat).push((x % 256) as u8));
        assert(out@.subrange(i as int, n as int) =~= seq![(x % 256) as u8] + prev.subrange(i + 1, n as int));
        assert(be((x / 256) as nat, i as nat).push((x % 256) as u8) + prev.subrange(i + 1, n as int)
            =~= be((x / 256) as nat, i as nat) + out@.subrange(i as int, n as int));
        x = x / 256;
    }
    assert(out@.subrange(0, n as int) =~= out@);
    out
}

/// The number written by `s`, most significant byte first.
pub(crate) fn be_number(s: &[u8]) -> (r: u128)
    requires
        s@.len() <= 16,
    ensures
        r == be_val(s@),
{
    let mut x: u128 = 0;
    let mut i: usize = 0;
    while i < s.len()
        invariant
            i <= s@.len() <= 16,
            x == be_val(s@.subrange(0, i as int)),
        decreases s@.len() - i,
    {
        proof {
            lemma_be_val_bound(s@.subrange(0, i as int));
            lemma_pow256_mono(i as nat, 15);
            lemma_pow256_values();
            assert(s@.subrange(0, i + 1).drop_last() =~= s@.subrange(0, i as int));
        }
        x = x * 256 + s[i] as u128;
        i = i + 1;
    }
    assert(s@.subrange(0, i as int) =~= s@);
    x
}

/// `s` in reverse order.
pub(crate) fn reversed(s: &[u8]) -> (r: Vec<u8>)
    ensures
        r@ == s@.reverse(),
{
    let mut out: Vec<u8> = Vec::new();
    let mut i: usize = s.len();
    while i > 0
        invariant
            i <= s@.len(),
            out@ == s@.subrange(i as int, s@.len() as int).reverse(),
        decreases i,
    {
        i = i - 1;
        out.push(s[i]);
        assert(out@ =~= s@.subrange(i as int, s@.len() as int).reverse());
    }
    assert(s@.subrange(0, s@.len() as int) =~= s@);
    out
}

/// Bitwise complement of each byte.
fn complemented(s: &[u8]) -> (r: Vec<u8>)
    ensures
        r@ == complement(s@),
{
    let mut out: Vec<u8> = Vec::new();
    let mut i: usize = 0;
    while i < s.len()
        invariant
            i <= s@.len(),
            out@ == complement(s@.subrange(0, i as int)),
        decreases s@.len() - i,
    {
        out.push(255 - s[i]);
        i = i + 1;
        assert(out@ =~= complement(s@.subrange(0, i as int)));
    }
    assert(s@.subrange(0, s@.len() as int) =~= s@);
    out
}

/// `s` as stored under `order`.
fn apply_order(s: &[u8], order: Order) -> (r: Vec<u8>)
    ensures
        r@ == ordered(s@, order),
{
    if order == Order::Descending {
        complemented(s)
    } else {
        vstd::slice::slice_to_vec(s)
    }
}

/// Resolve the byte order of `P`.
pub(crate) fn little_endian<P: EncodingParams>() -> (r: bool)
    ensures
        r == is_little(P::spec_endianness(), r),
        P::spec_endianness() == Endianness::Little ==> r,
        P::spec_endianness() == Endianness::Big ==> !r,
{
    match P::endianness() {
        Endianness::Little => true,
        Endianness::Big => false,
        Endianness::Native => native_little(),
    }
}

/// Encoding of number `k` on `n` bytes in the given byte order and ordering.
pub(crate) fn encode_raw(k: u128, n: usize, order: Order, little: bool) -> (r: Vec<u8>)
    ensures
        r@ == ordered(raw(k as nat, n as nat, little), order),
{
    let b = be_bytes(k, n);
    let b = if little {
        reversed(b.as_slice())
    } else {
        b
    };
    apply_order(b.as_slice(), order)
}

/// Encoding of number `k` on `n` bytes in the byte order and ordering of `P`.
fn encode_key<P: EncodingParams>(k: u128, n: usize, little: bool) -> (r: Vec<u8>)
    ensures
        r@ == ordered(raw(k as nat, n as nat, little), P::spec_order()),
{
    encode_raw(k, n, P::order(), little)
}

/// Number that `s` encodes in the byte order and ordering of `P`.
fn decode_key<P: EncodingParams>(s: &[u8], little: bool) -> (r: u128)
    requires
        s@.len() <= 16,
    ensures
        r == raw_val(ordered(s@, P::spec_order()), little),
{
    decode_raw(s, P::order(), little)
}

/// Number that `s` encodes in the given byte order and ordering.
pub(crate) fn decode_raw(s: &[u8], order: Order, little: bool) -> (r: u128)
    requires
        s@.len() <= 16,
    ensures
        r == raw_val(ordered(s@, order), little),
        r < pow256(s@.len()),
{
    let o = apply_order(s, order);
    proof {
        lemma_be_val_bound(o@);
        lemma_be_val_bound(o@.reverse());
    }
    if little {
        let rv = reversed(o.as_slice());
        assert(rv@.len() == o@.len());
        be_number(rv.as_slice())
    } else {
        be_number(o.as_slice())
    }
}


/// Writing produced the encoding `enc(little)` for the byte order of `P` (on some machine).
pub open spec fn wrote_as<W: WriteBytes, P: EncodingParams>(
    before: W,
    after: W,
    r: Result<(), Error>,
    enc: spec_fn(bool) -> Seq<u8>,
) -> bool {
    ||| wrote(before, after, r, enc(is_little(P::spec_endianness(), false)))
    ||| wrote(before, after, r, enc(is_little(P::spec_endianness(), true)))
}

/// Reading took `n` bytes, and a value `x` with `ok(bytes, little, x)` for the byte order of
/// `P` (on some machine).
pub open spec fn read_as<T, P: EncodingParams>(
    before: Seq<u8>,
    after: Seq<u8>,
    n: nat,
    r: Result<T, Error>,
    ok: spec_fn(Seq<u8>, bool, T) -> bool,
) -> bool {
    &&& took(before, after, n, r)
    &&& r is Ok ==> {
        ||| ok(before.subrange(0, n as int), is_little(P::spec_endianness(), false), r.unwrap())
        ||| ok(before.subrange(0, n as int), is_little(P::spec_endianness(), true), r.unwrap())
    }
}

/// Write number `k` on `n` bytes.
fn write_key<W: WriteBytes, P: EncodingParams>(writer: &mut W, k: u128, n: usize, little: bool) -> (r: Result<(), Error>)
    requires
        old(writer).wf(),
    ensures
        wrote(*old(writer), *final(writer), r, ordered(raw(k as nat, n as nat, little), P::spec_order())),
{
    let bytes = encode_key::<P>(k, n, little);
    writer.write(bytes.as_slice())
}

/// Read a number of `n` bytes.
fn read_key<P: EncodingParams>(reader: &mut DeBytesReader, n: usize, little: bool) -> (r: Result<u128, Error>)
    requires
        n <= 16,
    ensures
        took(old(reader)@, final(reader)@, n as nat, r),
        r is Ok ==> r.unwrap() == raw_val(ordered(old(reader)@.subrange(0, n as int), P::spec_order()), little)
            && r.unwrap() < pow256(n as nat),
{
    match reader.read(n) {
        Ok(s) => {
            let k = decode_key::<P>(s, little);
            proof {
                let o = ordered(s@, P::spec_order());
                assert(o.len() == s@.len());
                lemma_be_val_bound(o);
                lemma_be_val_bound(o.reverse());
            }
            Ok(k)
        },
        Err(e) => Err(e),
    }
}

/// Serialize `u8`
pub fn serialize_u8<W: WriteBytes, P: EncodingParams>(writer: &mut W, value: u8, _params: P) -> (r: Result<(), Error>)
    requires
        old(writer).wf(),
    ensures
        wrote_as::<W, P>(*old(writer), *final(writer), r, |l: bool| int_enc(value as int, 1, false, P::spec_order(), l)),
{
    let little = little_endian::<P>();
    proof { lemma_pow256_values(); }
    write_key::<W, P>(writer, value as u128, 1, little)
}

/// Deserialize `u8`
pub fn deserialize_u8<P: EncodingParams>(reader: &mut DeBytesReader, _params: P) -> (r: Result<u8, Error>)
    ensures
        read_as::<u8, P>(old(reader)@, final(reader)@, 1, r, |s: Seq<u8>, l: bool, x: u8| x as int == int_dec(s, 1, false, P::spec_order(), l)),
{
    let little = little_endian::<P>();
    proof { lemma_pow256_values(); }
    match read_key::<P>(reader, 1, little) {
        Ok(k) => Ok(k as u8),
        Err(e) => Err(e),
    }
}

/// Serialize `u16`
pub fn serialize_u16<W: WriteBytes, P: EncodingParams>(writer: &mut W, value: u16, _params: P) -> (r: Result<(), Error>)
    requires
        old(writer).wf(),
    ensures
        wrote_as::<W, P>(*old(writer), *final(writer), r, |l: bool| int_enc(value as int, 2, false, P::spec_order(), l)),
{
    let little = little_endian::<P>();
    proof { lemma_pow256_values(); }
    write_key::<W, P>(writer, value as u128, 2, little)
}

/// Deserialize `u16`
pub fn deserialize_u16<P: EncodingParams>(reader: &mut DeBytesReader, _params: P) -> (r: Result<u16, Error>)
    ensures
        read_as::<u16, P>(old(reader)@, final(reader)@, 2, r, |s: Seq<u8>, l: bool, x: u16| x as int == int_dec(s, 2, false, P::spec_order(), l)),
{
    let little = little_endian::<P>();
    proof { lemma_pow256_values(); }
    match read_key::<P>(reader, 2, little) {
        Ok(k) => Ok(k as u16),
        Err(e) => Err(e),
    }
}

/// Serialize `u32`
pub fn serialize_u32<W: WriteBytes, P: EncodingParams>(writer: &mut W, value: u32, _params: P) -> (r: Result<(), Error>)
    requires
        old(writer).wf(),
    ensures
        wrote_as::<W, P>(*old(writer), *final(writer), r, |l: bool| int_enc(value as int, 4, false, P::spec_order(), l)),
{
    let little = little_endian::<P>();
    proof { lemma_pow256_values(); }
    write_key::<W, P>(writer, value as u128, 4, little)
}

/// Deserialize `u32`
pub fn deserialize_u32<P: EncodingParams>(reader: &mut DeBytesReader, _params: P) -> (r: Result<u32, Error>)
    ensures
        read_as::<u32, P>(old(reader)@, final(reader)@, 4, r, |s: Seq<u8>, l: bool, x: u32| x as int == int_dec(s, 4, false, P::spec_order(), l)),
{
    let little = little_endian::<P>();
    proof { lemma_pow256_values(); }
    match read_key::<P>(reader, 4, little) {
        Ok(k) => Ok(k as u32),
        Err(e) => Err(e),
    }
}

/// Serialize `u64`
pub fn serialize_u64<W: WriteBytes, P: EncodingParams>(writer: &mut W, value: u64, _params: P) -> (r: Result<(), Error>)
    requires
        old(writer).wf(),
    ensures
        wrote_as::<W, P>(*old(writer), *final(writer), r, |l: bool| int_enc(value as int, 8, false, P::spec_order(), l)),
{
    let little = little_endian::<P>();
    proof { lemma_pow256_values(); }
    write_key::<W, P>(writer, value as u128, 8, little)
}

/// Deserialize `u64`
pub fn deserialize_u64<P: EncodingParams>(reader: &mut DeBytesReader, _params: P) -> (r: Result<u64, Error>)
    ensures
        read_as::<u64, P>(old(reader)@, final(reader)@, 8, r, |s: Seq<u8>, l: bool, x: u64| x as int == int_dec(s, 8, false, P::spec_order(), l)),
{
    let little = little_endian::<P>();
    proof { lemma_pow256_values(); }
    match read_key::<P>(reader, 8, little) {
        Ok(k) => Ok(k as u64),
        Err(e) => Err(e),
    }
}

/// Serialize `u128`
pub fn serialize_u128<W: WriteBytes, P: EncodingParams>(writer: &mut W, value: u128, _params: P) -> (r: Result<(), Error>)
    requires
        old(writer).wf(),
    ensures
        wrote_as::<W, P>(*old(writer), *final(writer), r, |l: bool| int_enc(value as int, 16, false, P::spec_order(), l)),
{
    let little = little_endian::<P>();
    proof { lemma_pow256_values(); }
    write_key::<W, P>(writer, value as u128, 16, little)
}

/// Deserialize `u128`
pub fn deserialize_u128<P: EncodingParams>(reader: &mut DeBytesReader, _params: P) -> (r: Result<u128, Error>)
    ensures
        read_as::<u128, P>(old(reader)@, final(reader)@, 16, r, |s: Seq<u8>, l: bool, x: u128| x as int == int_dec(s, 16, false, P::spec_order(), l)),
{
    let little = little_endian::<P>();
    proof { lemma_pow256_values(); }
    match read_key::<P>(reader, 16, little) {
        Ok(k) => Ok(k as u128),
        Err(e) => Err(e),
    }
}

/// Serialize `i8`
pub fn serialize_i8<W: WriteBytes, P: EncodingParams>(writer: &mut W, value: i8, _params: P) -> (r: Result<(), Error>)
    requires
        old(writer).wf(),
    ensures
        wrote_as::<W, P>(*old(writer), *final(writer), r, |l: bool| int_enc(value as int, 1, true, P::spec_order(), l)),
{
    let little = little_endian::<P>();
    proof { lemma_pow256_values(); }
    write_key::<W, P>(writer, (value as i128 + 0x80) as u128, 1, little)
}

/// Deserialize `i8`
pub fn deserialize_i8<P: EncodingParams>(reader: &mut DeBytesReader, _params: P) -> (r: Result<i8, Error>)
    ensures
        read_as::<i8, P>(old(reader)@, final(reader)@, 1, r, |s: Seq<u8>, l: bool, x: i8| x as int == int_dec(s, 1, true, P::spec_order(), l)),
{
    let little = little_endian::<P>();
    proof { lemma_pow256_values(); }
    match read_key::<P>(reader, 1, little) {
        Ok(k) => Ok((k as i128 - 0x80) as i8),
        Err(e) => Err(e),
    }
}

/// Serialize `i16`
pub fn serialize_i16<W: WriteBytes, P: EncodingParams>(writer: &mut W, value: i16, _params: P) -> (r: Result<(), Error>)
    requires
        old(writer).wf(),
    ensures
        wrote_as::<W, P>(*old(writer), *final(writer), r, |l: bool| int_enc(value as int, 2, true, P::spec_order(), l)),
{
    let little = little_endian::<P>();
    proof { lemma_pow256_values(); }
    write_key::<W, P>(writer, (value as i128 + 0x8000) as u128, 2, little)
}

/// Deserialize `i16`
pub fn deserialize_i16<P: EncodingParams>(reader: &mut DeBytesReader, _params: P) -> (r: Result<i16, Error>)
    ensures
        read_as::<i16, P>(old(reader)@, final(reader)@, 2, r, |s: Seq<u8>, l: bool, x: i16| x as int == int_dec(s, 2, true, P::spec_order(), l)),
{
    let little = little_endian::<P>();
    proof { lemma_pow256_values(); }
    match read_key::<P>(reader, 2, little) {
        Ok(k) => Ok((k as i128 - 0x8000) as i16),
        Err(e) => Err(e),
    }
}

/// Serialize `i32`
pub fn serialize_i32<W: WriteBytes, P: EncodingParams>(writer: &mut W, value: i32, _params: P) -> (r: Result<(), Error>)
    requires
        old(writer).wf(),
    ensures
        wrote_as::<W, P>(*old(writer), *final(writer), r, |l: bool| int_enc(value as int, 4, true, P::spec_order(), l)),
{
    let little = little_endian::<P>();
    proof { lemma_pow256_values(); }
    write_key::<W, P>(writer, (value as i128 + 0x8000_0000) as u128, 4, little)
}

/// Deserialize `i32`
pub fn deserialize_i32<P: EncodingParams>(reader: &mut DeBytesReader, _params: P) -> (r: Result<i32, Error>)
    ensures
        read_as::<i32, P>(old(reader)@, final(reader)@, 4, r, |s: Seq<u8>, l: bool, x: i32| x as int == int_dec(s, 4, true, P::spec_order(), l)),
{
    let little = little_endian::<P>();
    proof { lemma_pow256_values(); }
    match read_key::<P>(reader, 4, little) {
        Ok(k) => Ok((k as i128 - 0x8000_0000) as i32),
        Err(e) => Err(e),
    }
}

/// Serialize `i64`
pub fn serialize_i64<W: WriteBytes, P: EncodingParams>(writer: &mut W, value: i64, _params: P) -> (r: Result<(), Error>)
    requires
        old(writer).wf(),
    ensures
        wrote_as::<W, P>(*old(writer), *final(writer), r, |l: bool| int_enc(value as int, 8, true, P::spec_order(), l)),
{
    let little = little_endian::<P>();
    proof { lemma_pow256_values(); }
    write_key::<W, P>(writer, (value as i128 + 0x8000_0000_0000_0000) as u128, 8, little)
}

/// Deserialize `i64`
pub fn deserialize_i64<P: EncodingParams>(reader: &mut DeBytesReader, _params: P) -> (r: Result<i64, Error>)
    ensures
        read_as::<i64, P>(old(reader)@, final(reader)@, 8, r, |s: Seq<u8>, l: bool, x: i64| x as int == int_dec(s, 8, true, P::spec_order(), l)),
{
    let little = little_endian::<P>();
    proof { lemma_pow256_values(); }
    match read_key::<P>(reader, 8, little) {
        Ok(k) => Ok((k as i128 - 0x8000_0000_0000_0000) as i64),
        Err(e) => Err(e),
    }
}

/// Serialize `i128`
pub fn serialize_i128<W: WriteBytes, P: EncodingParams>(writer: &mut W, value: i128, _params: P) -> (r: Result<(), Error>)
    requires
        old(writer).wf(),
    ensures
        wrote_as::<W, P>(*old(writer), *final(writer), r, |l: bool| int_enc(value as int, 16, true, P::spec_order(), l)),
{
    let little = little_endian::<P>();
    proof { lemma_pow256_values(); }
    let k: u128 = if value >= 0 {
        value as u128 + 0x8000_0000_0000_0000_0000_0000_0000_0000
    } else {
        (value + 1 + i128::MAX) as u128
    };
    write_key::<W, P>(writer, k, 16, little)
}

/// Deserialize `i128`
pub fn deserialize_i128<P: EncodingParams>(reader: &mut DeBytesReader, _params: P) -> (r: Result<i128, Error>)
    ensures
        read_as::<i128, P>(old(reader)@, final(reader)@, 16, r, |s: Seq<u8>, l: bool, x: i128| x as int == int_dec(s, 16, true, P::spec_order(), l)),
{
    let little = little_endian::<P>();
    proof { lemma_pow256_values(); }
    match read_key::<P>(reader, 16, little) {
        Ok(k) => {
            if k >= 0x8000_0000_0000_0000_0000_0000_0000_0000 {
                Ok((k - 0x8000_0000_0000_0000_0000_0000_0000_0000) as i128)
            } else {
                Ok(k as i128 - i128::MAX - 1)
            }
        },
        Err(e) => Err(e),
    }
}

/// Serialize `bool`: one byte, 0 or 1
pub fn serialize_bool<W: WriteBytes, P: EncodingParams>(writer: &mut W, value: bool, _params: P) -> (r: Result<(), Error>)
    requires
        old(writer).wf(),
    ensures
        wrote_as::<W, P>(*old(writer), *final(writer), r, |l: bool| int_enc(if value { 1 } else { 0 }, 1, false, P::spec_order(), l)),
{
    let little = little_endian::<P>();
    let k: u128 = if value { 1 } else { 0 };
    write_key::<W, P>(writer, k, 1, little)
}

/// Deserialize `bool`: any byte but 0 reads as `true`
pub fn deserialize_bool<P: EncodingParams>(reader: &mut DeBytesReader, _params: P) -> (r: Result<bool, Error>)
    ensures
        read_as::<bool, P>(old(reader)@, final(reader)@, 1, r, |s: Seq<u8>, l: bool, x: bool| x == (int_dec(s, 1, false, P::spec_order(), l) != 0)),
{
    let little = little_endian::<P>();
    match read_key::<P>(reader, 1, little) {
        Ok(k) => Ok(k != 0),
        Err(e) => Err(e),
    }
}

/// Relies on char::from_u32: `Some` exactly for Unicode scalar values, holding that code point.
#[verifier::external_body]
pub(crate) fn char_from_u32(u: u32) -> (r: Option<char>)
    ensures
        r is Some <==> valid_scalar(u as nat),
        r is Some ==> r.unwrap() as u32 == u,
{
    char::from_u32(u)
}

/// Serialize `char` as its code point
pub fn serialize_char<W: WriteBytes, P: EncodingParams>(writer: &mut W, value: char, _params: P) -> (r: Result<(), Error>)
    requires
        old(writer).wf(),
    ensures
        wrote_as::<W, P>(*old(writer), *final(writer), r, |l: bool| int_enc(value as u32 as int, 4, false, P::spec_order(), l)),
{
    let little = little_endian::<P>();
    write_key::<W, P>(writer, value as u32 as u128, 4, little)
}

/// Deserialize `char`; a number that is no Unicode scalar value gives `InvalidUtf8Encoding`
pub fn deserialize_char<P: EncodingParams>(reader: &mut DeBytesReader, _params: P) -> (r: Result<char, Error>)
    ensures
        old(reader)@.len() < 4 ==> r == Err::<char, Error>(Error::PrematureEndOfInput) && final(reader)@ == old(reader)@,
        old(reader)@.len() >= 4 ==> final(reader)@ == old(reader)@.subrange(4, old(reader)@.len() as int) && {
            let s = old(reader)@.subrange(0, 4);
            let u0 = int_dec(s, 4, false, P::spec_order(), is_little(P::spec_endianness(), false));
            let u1 = int_dec(s, 4, false, P::spec_order(), is_little(P::spec_endianness(), true));
            ||| (r is Ok && r.unwrap() as u32 == u0 && valid_scalar(u0 as nat))
            ||| (r is Ok && r.unwrap() as u32 == u1 && valid_scalar(u1 as nat))
            ||| (r == Err::<char, Error>(Error::InvalidUtf8Encoding) && !valid_scalar(u0 as nat))
            ||| (r == Err::<char, Error>(Error::InvalidUtf8Encoding) && !valid_scalar(u1 as nat))
        },
{
    let little = little_endian::<P>();
    proof { lemma_pow256_values(); }
    match read_key::<P>(reader, 4, little) {
        Ok(k) => match char_from_u32(k as u32) {
            Some(c) => Ok(c),
            None => Err(Error::InvalidUtf8Encoding),
        },
        Err(e) => Err(e),
    }
}

/// Serialize an `f32` given by its bit pattern (`f32::to_bits`)
pub fn serialize_f32<W: WriteBytes, P: EncodingParams>(writer: &mut W, bits: u32, _params: P) -> (r: Result<(), Error>)
    requires
        old(writer).wf(),
    ensures
        wrote_as::<W, P>(*old(writer), *final(writer), r, |l: bool| float_enc(bits as nat, 4, P::spec_order(), P::spec_endianness() == Endianness::Big, l)),
{
    let little = little_endian::<P>();
    proof { lemma_pow256_values(); }
    let k: u32 = if P::endianness() != Endianness::Big {
        bits
    } else if bits >= 0x8000_0000 {
        0xFFFF_FFFF - bits
    } else {
        bits + 0x8000_0000
    };
    write_key::<W, P>(writer, k as u128, 4, little)
}

/// Deserialize an `f32`, giving its bit pattern (for `f32::from_bits`)
pub fn deserialize_f32<P: EncodingParams>(reader: &mut DeBytesReader, _params: P) -> (r: Result<u32, Error>)
    ensures
        read_as::<u32, P>(old(reader)@, final(reader)@, 4, r, |s: Seq<u8>, l: bool, x: u32| x as nat == float_dec(s, 4, P::spec_order(), P::spec_endianness() == Endianness::Big, l)),
{
    let little = little_endian::<P>();
    proof { lemma_pow256_values(); }
    match read_key::<P>(reader, 4, little) {
        Ok(k) => {
            let k = k as u32;
            if P::endianness() != Endianness::Big {
                Ok(k)
            } else if k >= 0x8000_0000 {
                Ok(k - 0x8000_0000)
            } else {
                Ok(0xFFFF_FFFF - k)
            }
        },
        Err(e) => Err(e),
    }
}

/// Serialize an `f64` given by its bit pattern (`f64::to_bits`)
pub fn serialize_f64<W: WriteBytes, P: EncodingParams>(writer: &mut W, bits: u64, _params: P) -> (r: Result<(), Error>)
    requires
        old(writer).wf(),
    ensures
        wrote_as::<W, P>(*old(writer), *final(writer), r, |l: bool| float_enc(bits as nat, 8, P::spec_order(), P::spec_endianness() == Endianness::Big, l)),
{
    let little = little_endian::<P>();
    proof { lemma_pow256_values(); }
    let k: u64 = if P::endianness() != Endianness::Big {
        bits
    } else if bits >= 0x8000_0000_0000_0000 {
        0xFFFF_FFFF_FFFF_FFFF - bits
    } else {
        bits + 0x8000_0000_0000_0000
    };
    write_key::<W, P>(writer, k as u128, 8, little)
}

/// Deserialize an `f64`, giving its bit pattern (for `f64::from_bits`)
pub fn deserialize_f64<P: EncodingParams>(reader: &mut DeBytesReader, _params: P) -> (r: Result<u64, Error>)
    ensures
        read_as::<u64, P>(old(reader)@, final(reader)@, 8, r, |s: Seq<u8>, l: bool, x: u64| x as nat == float_dec(s, 8, P::spec_order(), P::spec_endianness() == Endianness::Big, l)),
{
    let little = little_endian::<P>();
    proof { lemma_pow256_values(); }
    match read_key::<P>(reader, 8, little) {
        Ok(k) => {
            let k = k as u64;
            if P::endianness() != Endianness::Big {
                Ok(k)
            } else if k >= 0x8000_0000_0000_0000 {
                Ok(k - 0x8000_0000_0000_0000)
            } else {
                Ok(0xFFFF_FFFF_FFFF_FFFF - k)
            }
        },
        Err(e) => Err(e),
    }
}


proof fn lemma_half(n: nat)
    requires
        n >= 1,
    ensures
        half(n) * 2 == pow256(n),
        half(n) >= 1,
{
    let q = pow256((n - 1) as nat);
    crate::ordering::lemma_pow256_pos((n - 1) as nat);
    assert((256 * q) / 2 * 2 == 256 * q) by (nonlinear_arith);
    assert((256 * q) / 2 >= 1) by (nonlinear_arith)
        requires
            q >= 1,
    ;
}

proof fn lemma_raw_round_trip(k: nat, n: nat, little: bool)
    requires
        k < pow256(n),
    ensures
        raw_val(raw(k, n, little), little) == k,
        raw(k, n, little).len() == n,
{
    lemma_be_val_be(k, n);
    lemma_be_len(k, n);
    assert(be(k, n).reverse().reverse() =~= be(k, n));
}

/// Round trip of integers: decoding the encoding of any value of an `n`-byte integer type
/// gives the value back, in either ordering and byte order.
pub proof fn law_int_round_trip(v: int, n: nat, signed: bool, order: Order, little: bool)
    requires
        int_in_range(v, n, signed),
    ensures
        int_dec(int_enc(v, n, signed, order, little), n, signed, order, little) == v,
        int_enc(v, n, signed, order, little).len() == n,
{
    let k = int_key(v, n, signed);
    if signed {
        assert(2 * (pow256(n) / 2) <= pow256(n));
    }
    lemma_raw_round_trip(k, n, little);
    lemma_ordered_involutive(raw(k, n, little), order);
}

/// Round trip of booleans.
pub proof fn law_bool_round_trip(b: bool, order: Order, little: bool)
    ensures
        (int_dec(int_enc(if b { 1 } else { 0 }, 1, false, order, little), 1, false, order, little) != 0) == b,
{
    assert(pow256(1) == 256) by {
        reveal_with_fuel(pow256, 2);
    }
    law_int_round_trip(if b { 1 } else { 0 }, 1, false, order, little);
}

proof fn lemma_key_order(a: nat, b: nat, n: nat, order: Order)
    requires
        a < pow256(n),
        b < pow256(n),
    ensures
        lex_lt(ordered(be(a, n), order), ordered(be(b, n), order)) <==> if order == Order::Descending {
            b < a
        } else {
            a < b
        },
{
    lemma_be_order(a, b, n);
    lemma_be_order(b, a, n);
    lemma_be_len(a, n);
    lemma_be_len(b, n);
    lemma_complement_order(be(a, n), be(b, n));
}

/// Order preservation of integers: with big-endian layout, encodings of two values of the same
/// integer type compare as the values do (reversed for `Descending`), and are equal exactly
/// when the values are.
pub proof fn law_int_order(a: int, b: int, n: nat, signed: bool, order: Order)
    requires
        int_in_range(a, n, signed),
        int_in_range(b, n, signed),
    ensures
        lex_lt(int_enc(a, n, signed, order, false), int_enc(b, n, signed, order, false)) <==> if order
            == Order::Descending {
            b < a
        } else {
            a < b
        },
        (int_enc(a, n, signed, order, false) == int_enc(b, n, signed, order, false)) <==> a == b,
{
    if signed {
        assert(2 * (pow256(n) / 2) <= pow256(n));
    }
    lemma_key_order(int_key(a, n, signed), int_key(b, n, signed), n, order);
    law_int_round_trip(a, n, signed, order, false);
    law_int_round_trip(b, n, signed, order, false);
}

/// Round trip of floats: decoding the encoding of any bit pattern of `n` bytes gives it back.
pub proof fn law_float_round_trip(bits: nat, n: nat, order: Order, masked: bool, little: bool)
    requires
        n >= 1,
        bits < pow256(n),
    ensures
        float_dec(float_enc(bits, n, order, masked, little), n, order, masked, little) == bits,
        float_enc(bits, n, order, masked, little).len() == n,
{
    lemma_half(n);
    let k = float_key(bits, n, masked);
    lemma_raw_round_trip(k, n, little);
    lemma_ordered_involutive(raw(k, n, little), order);
}

/// Order preservation of floats: with big-endian layout, encodings of two bit patterns compare
/// as the floats they stand for (`float_rank`; reversed for `Descending`), and are equal
/// exactly when the bit patterns are.
pub proof fn law_float_order(a: nat, b: nat, n: nat, order: Order)
    requires
        n >= 1,
        a < pow256(n),
        b < pow256(n),
    ensures
        lex_lt(float_enc(a, n, order, true, false), float_enc(b, n, order, true, false)) <==> if order
            == Order::Descending {
            float_rank(b, n) < float_rank(a, n)
        } else {
            float_rank(a, n) < float_rank(b, n)
        },
        (float_enc(a, n, order, true, false) == float_enc(b, n, order, true, false)) <==> a == b,
{
    lemma_half(n);
    let ka = float_key(a, n, true);
    let kb = float_key(b, n, true);
    assert(ka == float_rank(a, n) + half(n));
    assert(kb == float_rank(b, n) + half(n));
    lemma_key_order(ka, kb, n, order);
    law_float_round_trip(a, n, order, true, false);
    law_float_round_trip(b, n, order, true, false);
}


proof fn lemma_raw_of_val(x: Seq<u8>, little: bool)
    ensures
        raw(raw_val(x, little), x.len(), little) == x,
        raw_val(x, little) < pow256(x.len()),
{
    crate::ordering::lemma_be_be_val(x);
    crate::ordering::lemma_be_be_val(x.reverse());
    lemma_be_val_bound(x);
    lemma_be_val_bound(x.reverse());
    assert(x.reverse().reverse() =~= x);
}

/// Decoding `n` bytes as an integer and encoding it again gives the bytes back.
pub proof fn lemma_int_dec_enc(s: Seq<u8>, n: nat, signed: bool, order: Order, little: bool)
    requires
        s.len() == n,
        n >= 1,
    ensures
        int_in_range(int_dec(s, n, signed, order, little), n, signed),
        int_enc(int_dec(s, n, signed, order, little), n, signed, order, little) == s,
{
    let x = ordered(s, order);
    assert(x.len() == n);
    lemma_raw_of_val(x, little);
    lemma_half(n);
    lemma_ordered_involutive(s, order);
}

/// Decoding `n` bytes as a float bit pattern and encoding it again gives the bytes back.
pub proof fn lemma_float_dec_enc(s: Seq<u8>, n: nat, order: Order, masked: bool, little: bool)
    requires
        s.len() == n,
        n >= 1,
    ensures
        float_dec(s, n, order, masked, little) < pow256(n),
        float_enc(float_dec(s, n, order, masked, little), n, order, masked, little) == s,
{
    let x = ordered(s, order);
    assert(x.len() == n);
    lemma_raw_of_val(x, little);
    lemma_half(n);
    lemma_ordered_involutive(s, order);
}

/// Bitwise invert the first `n` bytes of a buffer
pub fn invert_prefix(buf: &mut [u8], n: usize)
    requires
        n <= old(buf)@.len(),
    ensures
        final(buf)@ == complement(old(buf)@.subrange(0, n as int)) + old(buf)@.subrange(n as int, old(buf)@.len() as int),
{
    let mut i: usize = 0;
    while i < n
        invariant
            i <= n <= buf@.len(),
            buf@.len() == old(buf)@.len(),
            forall|k: int| 0 <= k < i ==> buf@[k] == 255 - old(buf)@[k],
            forall|k: int| i <= k < buf@.len() ==> buf@[k] == old(buf)@[k],
        decreases n - i,
    {
        let b = buf[i];
        buf[i] = 255 - b;
        i = i + 1;
    }
    assert(buf@ =~= complement(old(buf)@.subrange(0, n as int)) + old(buf)@.subrange(n as int, old(buf)@.len() as int));
}

/// Bitwise invert the contents of a buffer
pub fn invert_buffer(buf: &mut [u8])
    ensures
        final(buf)@ == complement(old(buf)@),
{
    let mut i: usize = 0;
    while i < buf.len()
        invariant
            i <= buf@.len(),
            buf@.len() == old(buf)@.len(),
            forall|k: int| 0 <= k < i ==> buf@[k] == 255 - old(buf)@[k],
            forall|k: int| i <= k < buf@.len() ==> buf@[k] == old(buf)@[k],
        decreases buf@.len() - i,
    {
        let b = buf[i];
        buf[i] = 255 - b;
        i = i + 1;
    }
    assert(buf@ =~= complement(old(buf)@));
}

} // verus!
