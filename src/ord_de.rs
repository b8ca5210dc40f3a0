//! Deserializer for the data format, driven by a schema
//!
//! It reads primitives and byte strings from the head of a double-ended buffer, and sequence
//! lengths and enum discriminants from its tail when the parameters put them there. Every
//! read checks that it meets the one encoding a value has: booleans and option tags are 0 or
//! 1, varints are canonical, text is UTF-8, chars are Unicode scalar values.
use vstd::prelude::*;
use vstd::utf8::{encode_utf8, valid_utf8};
use crate::buf::DeBytesReader;
use crate::bytes_esc::string_from_utf8;
use crate::errors::Error;
use crate::ordering::{ordered, pow256};
use crate::params::SerializerParams;
use crate::primitives::{
    char_from_u32, decode_raw, int_dec, int_enc, int_in_range, law_float_round_trip,
    law_int_round_trip, lemma_float_dec_enc,
    lemma_int_dec_enc, lemma_pow256_values, raw_val, valid_scalar,
};
use crate::ord_ser::{format_of, resolve_format};
use crate::value::{
    Format, Schema, Value, equiv, equiv_entries, equiv_list, lemma_join_assoc, lemma_join_cancel, all_conform, conforms, discr_parts, entries_conform, entry_parts,
    entry_size, fields_conform, join, lemma_all_conform_push, lemma_char_value,
    lemma_entries_conform_push, lemma_entry_parts_push, lemma_fields_conform_push,
    lemma_list_parts_push, lemma_prim_parts, len_parts, list_parts, list_size, parts, prim_bytes,
    value_size,
};
use crate::varint::{
    law_varu32_round_trip, law_varu32_tail_round_trip, law_varu64_round_trip,
    law_varu64_tail_round_trip, lemma_varu32_dec_enc, lemma_varu32_dec_tail_enc,
    lemma_varu64_dec_enc, lemma_varu64_dec_tail_enc, varu32_dec, varu32_dec_tail,
    varu32_decode_from_reader, varu32_decode_from_tail, varu64_dec, varu64_dec_tail,
    varu64_decode_from_reader, varu64_decode_from_tail,
};

verus! {

broadcast use vstd::seq::axiom_seq_index_decreases, vstd::std_specs::vec::axiom_vec_decreases_to_view,
    vstd::std_specs::vec::axiom_vec_index_decreases;

/// From `before` to `after` the reader took head bytes `p.0` and tail bytes `p.1`.
pub open spec fn took_parts(before: Seq<u8>, after: Seq<u8>, p: (Seq<u8>, Seq<u8>)) -> bool {
    before == p.0 + after + p.1
}

proof fn lemma_took_join(a: Seq<u8>, b: Seq<u8>, c: Seq<u8>, p: (Seq<u8>, Seq<u8>), q: (Seq<u8>, Seq<u8>))
    requires
        took_parts(a, b, p),
        took_parts(b, c, q),
    ensures
        took_parts(a, c, join(p, q)),
{
    assert(a =~= join(p, q).0 + c + join(p, q).1);
}

/// `b` without its first `h` and last `t` bytes.
pub open spec fn mid(b: Seq<u8>, h: nat, t: nat) -> Seq<u8> {
    b.subrange(h as int, b.len() - t)
}

/// Reading a sequence length from `b`: the length and the numbers of head and tail bytes it
/// takes, or the error met.
pub open spec fn slen(b: Seq<u8>, f: Format) -> Result<(nat, nat, nat), Error> {
    let d = if f.at_tail {
        varu64_dec_tail(b)
    } else {
        varu64_dec(b)
    };
    match d {
        Ok((v, l)) => if v > usize::MAX {
            Err(Error::InvalidVarintEncoding)
        } else if f.at_tail {
            Ok((v, 0, l))
        } else {
            Ok((v, l, 0))
        },
        Err(e) => Err(e),
    }
}

/// Reading an enum discriminant from `b`: the discriminant and the numbers of head and tail
/// bytes it takes, or the error met.
pub open spec fn sdiscr(b: Seq<u8>, f: Format) -> Result<(nat, nat, nat), Error> {
    if f.at_tail {
        match varu32_dec_tail(b) {
            Ok((v, l)) => Ok((v, 0, l)),
            Err(e) => Err(e),
        }
    } else {
        match varu32_dec(b) {
            Ok((v, l)) => Ok((v, l, 0)),
            Err(e) => Err(e),
        }
    }
}

/// Width of a fixed-size shape, 0 for the others.
pub open spec fn fixed_width(s: Schema) -> nat {
    match s {
        Schema::U8 | Schema::I8 => 1,
        Schema::U16 | Schema::I16 => 2,
        Schema::U32 | Schema::I32 | Schema::F32 => 4,
        Schema::U64 | Schema::I64 | Schema::F64 => 8,
        Schema::U128 | Schema::I128 => 16,
        _ => 0,
    }
}

/// Whether the first byte of `b` is a tag, 0 or 1.
pub open spec fn tag_at(b: Seq<u8>, f: Format) -> bool {
    b.len() >= 1 && int_dec(b.subrange(0, 1), 1, false, f.order, f.little) <= 1
}

/// Reading a tag, 0 or 1, at the start of `b`.
pub open spec fn stag(b: Seq<u8>, f: Format) -> Result<(nat, nat), Error> {
    if b.len() < 1 {
        Err(Error::PrematureEndOfInput)
    } else if !tag_at(b, f) {
        Err(Error::InvalidTagEncoding)
    } else {
        Ok((1, 0))
    }
}

/// `r` with `a` added to both counts.
pub open spec fn shift(a: (nat, nat), r: Result<(nat, nat), Error>) -> Result<(nat, nat), Error> {
    match r {
        Ok((h, t)) => Ok((a.0 + h, a.1 + t)),
        Err(e) => Err(e),
    }
}

/// Reading a value of shape `s` from `b`: the numbers of head and tail bytes it takes, or the
/// first error met.
pub open spec fn sdec(s: Schema, b: Seq<u8>, f: Format) -> Result<(nat, nat), Error>
    decreases s, 1nat, 0nat,
{
    match s {
        Schema::Bool => stag(b, f),
        Schema::Char => if b.len() < 4 {
            Err(Error::PrematureEndOfInput)
        } else if !valid_scalar(int_dec(b.subrange(0, 4), 4, false, f.order, f.little) as nat) {
            Err(Error::InvalidUtf8Encoding)
        } else {
            Ok((4, 0))
        },
        Schema::Bytes => match slen(b, f) {
            Ok((n, h, t)) => if b.len() < h + t + n {
                Err(Error::PrematureEndOfInput)
            } else {
                Ok((h + n, t))
            },
            Err(e) => Err(e),
        },
        Schema::Str => match slen(b, f) {
            Ok((n, h, t)) => if b.len() < h + t + n {
                Err(Error::PrematureEndOfInput)
            } else if !valid_utf8(b.subrange(h as int, (h + n) as int)) {
                Err(Error::InvalidUtf8Encoding)
            } else {
                Ok((h + n, t))
            },
            Err(e) => Err(e),
        },
        Schema::Unit => Ok((0, 0)),
        Schema::Opt(inner) => match stag(b, f) {
            Err(e) => Err(e),
            Ok(_) => if int_dec(b.subrange(0, 1), 1, false, f.order, f.little) == 0 {
                Ok((1, 0))
            } else {
                shift((1, 0), sdec(*inner, b.subrange(1, b.len() as int), f))
            },
        },
        Schema::Sequence(_) | Schema::Mapping(_, _) => match slen(b, f) {
            Ok((n, h, t)) => shift((h, t), sdec_n(s, n, mid(b, h, t), f)),
            Err(e) => Err(e),
        },
        Schema::Tuple(fields) => sdec_n(s, fields@.len(), b, f),
        Schema::Enum(variants) => match sdiscr(b, f) {
            Ok((idx, h, t)) => if idx < variants@.len() {
                shift((h, t), sdec(variants@[idx as int], mid(b, h, t), f))
            } else {
                Err(Error::InvalidTagEncoding)
            },
            Err(e) => Err(e),
        },
        _ => if b.len() < fixed_width(s) {
            Err(Error::PrematureEndOfInput)
        } else {
            Ok((fixed_width(s), 0))
        },
    }
}

/// Reading the first `n` parts of a compound shape `s` from `b`: elements of a sequence,
/// entries of a map (key and value), or fields of a tuple (the last `n` of them).
pub open spec fn sdec_n(s: Schema, n: nat, b: Seq<u8>, f: Format) -> Result<(nat, nat), Error>
    decreases s, 0nat, n,
{
    if n == 0 {
        Ok((0, 0))
    } else {
        let first = match s {
            Schema::Sequence(e) => sdec(*e, b, f),
            Schema::Mapping(k, v) => match sdec(*k, b, f) {
                Ok((h, t)) => shift((h, t), sdec(*v, mid(b, h, t), f)),
                Err(e) => Err(e),
            },
            Schema::Tuple(fields) => if n <= fields@.len() {
                sdec(fields@[fields@.len() - n], b, f)
            } else {
                Err(Error::DeserializeAnyNotSupported)
            },
            _ => Err(Error::DeserializeAnyNotSupported),
        };
        match first {
            Ok((h, t)) => shift((h, t), sdec_n(s, (n - 1) as nat, mid(b, h, t), f)),
            Err(e) => Err(e),
        }
    }
}

proof fn lemma_took_mid(before: Seq<u8>, after: Seq<u8>, p: (Seq<u8>, Seq<u8>))
    requires
        took_parts(before, after, p),
    ensures
        after == mid(before, p.0.len(), p.1.len()),
        before.len() == p.0.len() + after.len() + p.1.len(),
{
    assert(after =~= mid(before, p.0.len(), p.1.len()));
}

proof fn lemma_mid_mid(b: Seq<u8>, h: nat, t: nat, h2: nat, t2: nat)
    requires
        h + t <= b.len(),
        h2 + t2 <= b.len() - h - t,
    ensures
        mid(mid(b, h, t), h2, t2) == mid(b, h + h2, t + t2),
{
    assert(mid(mid(b, h, t), h2, t2) =~= mid(b, h + h2, t + t2));
}

proof fn lemma_slen_of(n: nat, body: (Seq<u8>, Seq<u8>), rest: Seq<u8>, f: Format)
    requires
        n <= usize::MAX,
    ensures
        ({
            let lp = len_parts(n, f);
            let b = join(lp, body).0 + rest + join(lp, body).1;
            &&& slen(b, f) == Ok::<(nat, nat, nat), Error>((n, lp.0.len(), lp.1.len()))
            &&& mid(b, lp.0.len(), lp.1.len()) == body.0 + rest + body.1
            &&& lp.0.len() + lp.1.len() <= b.len()
        }),
{
    let lp = len_parts(n, f);
    let b = join(lp, body).0 + rest + join(lp, body).1;
    let inner = body.0 + rest + body.1;
    law_varu64_round_trip(n as u64, inner);
    if f.at_tail {
        law_varu64_tail_round_trip(n as u64, inner);
        assert(b =~= inner + lp.1);
    } else {
        assert(b =~= lp.0 + inner);
    }
    assert(mid(b, lp.0.len(), lp.1.len()) =~= inner);
}

proof fn lemma_sdiscr_of(idx: u32, body: (Seq<u8>, Seq<u8>), rest: Seq<u8>, f: Format)
    ensures
        ({
            let dp = discr_parts(idx, f);
            let b = join(dp, body).0 + rest + join(dp, body).1;
            &&& sdiscr(b, f) == Ok::<(nat, nat, nat), Error>((idx as nat, dp.0.len(), dp.1.len()))
            &&& mid(b, dp.0.len(), dp.1.len()) == body.0 + rest + body.1
            &&& dp.0.len() + dp.1.len() <= b.len()
        }),
{
    let dp = discr_parts(idx, f);
    let b = join(dp, body).0 + rest + join(dp, body).1;
    let inner = body.0 + rest + body.1;
    law_varu32_round_trip(idx, inner);
    if f.at_tail {
        law_varu32_tail_round_trip(idx, inner);
        assert(b =~= inner + dp.1);
    } else {
        assert(b =~= dp.0 + inner);
    }
    assert(mid(b, dp.0.len(), dp.1.len()) =~= inner);
}

/// Every encoding of a primitive, byte string, text or unit decodes.
#[verifier::spinoff_prover]
proof fn lemma_leaf_decodes(v: Value, s: Schema, rest: Seq<u8>, f: Format)
    requires
        conforms(v, s),
        value_size(v) <= usize::MAX,
        !(v is Unit || v is Opt || v is Sequence || v is Mapping || v is Tuple || v is Variant),
    ensures
        sdec(s, parts(v, f).0 + rest + parts(v, f).1, f) == Ok::<(nat, nat), Error>(
            (parts(v, f).0.len(), parts(v, f).1.len()),
        ),
{
    let p = parts(v, f);
    let b = p.0 + rest + p.1;
    match v {
        Value::Bool(x) => {
            lemma_pow256_values();
            law_int_round_trip(if x { 1 } else { 0 }, 1, false, f.order, f.little);
            assert(b.subrange(0, 1) =~= p.0);
        },
        Value::Char(c) => {
            lemma_char_value(c, f);
            lemma_pow256_values();
            law_int_round_trip(c as u32 as int, 4, false, f.order, f.little);
            vstd::utf8::char_is_scalar(c);
            assert(b.subrange(0, 4) =~= p.0);
        },
        Value::Bytes(bv) => {
            lemma_slen_of(bv@.len(), (bv@, Seq::empty()), rest, f);
        },
        Value::Str(st) => {
            let e = encode_utf8(st@);
            lemma_slen_of(e.len(), (e, Seq::empty()), rest, f);
            vstd::utf8::encode_utf8_valid_utf8(st@);
            let lp = len_parts(e.len(), f);
            assert(b.subrange(lp.0.len() as int, (lp.0.len() + e.len()) as int) =~= e);
        },
        _ => {
            lemma_prim_parts(v, f);
        },
    }
}

/// Every encoding decodes: after the head bytes of a value of shape `s`, any bytes, and the
/// value's tail bytes, reading shape `s` succeeds and takes exactly those head and tail bytes
/// (for values whose size fits in `usize`).
pub proof fn law_encoding_decodes(v: Value, s: Schema, rest: Seq<u8>, f: Format)
    requires
        conforms(v, s),
        value_size(v) <= usize::MAX,
    ensures
        sdec(s, parts(v, f).0 + rest + parts(v, f).1, f) == Ok::<(nat, nat), Error>(
            (parts(v, f).0.len(), parts(v, f).1.len()),
        ),
    decreases v, 1nat,
{
    match v {
        Value::Unit => {},
        Value::Opt(..) => lemma_opt_decodes(v, s, rest, f),
        Value::Sequence(..) => lemma_seq_decodes(v, s, rest, f),
        Value::Mapping(..) => lemma_map_decodes(v, s, rest, f),
        Value::Tuple(..) => lemma_tuple_decodes(v, s, rest, f),
        Value::Variant(..) => lemma_variant_decodes(v, s, rest, f),
        _ => {
            lemma_leaf_decodes(v, s, rest, f);
        },
    }
}

/// Every encoding of an option decodes.
#[verifier::spinoff_prover]
proof fn lemma_opt_decodes(v: Value, s: Schema, rest: Seq<u8>, f: Format)
    requires
        conforms(v, s),
        value_size(v) <= usize::MAX,
        v is Opt,
    ensures
        sdec(s, parts(v, f).0 + rest + parts(v, f).1, f) == Ok::<(nat, nat), Error>(
            (parts(v, f).0.len(), parts(v, f).1.len()),
        ),
    decreases v, 0nat,
{
    let p = parts(v, f);
    let b = p.0 + rest + p.1;
    match v {
        Value::Opt(o) => {
            lemma_pow256_values();
            match o {
                Option::None => {
                    law_int_round_trip(0, 1, false, f.order, f.little);
                    assert(b.subrange(0, 1) =~= p.0);
                },
                Option::Some(x) => {
                    law_int_round_trip(1, 1, false, f.order, f.little);
                    let tag = int_enc(1, 1, false, f.order, f.little);
                    let px = parts(*x, f);
                    assert(b.subrange(0, 1) =~= tag);
                    assert(b.subrange(1, b.len() as int) =~= px.0 + rest + px.1);
                    law_encoding_decodes(*x, *s->Opt_0, rest, f);
                },
            }
        },
        _ => {},
    }
}

/// Every encoding of a sequence decodes.
#[verifier::spinoff_prover]
proof fn lemma_seq_decodes(v: Value, s: Schema, rest: Seq<u8>, f: Format)
    requires
        conforms(v, s),
        value_size(v) <= usize::MAX,
        v is Sequence,
    ensures
        sdec(s, parts(v, f).0 + rest + parts(v, f).1, f) == Ok::<(nat, nat), Error>(
            (parts(v, f).0.len(), parts(v, f).1.len()),
        ),
    decreases v, 0nat,
{
    let p = parts(v, f);
    let b = p.0 + rest + p.1;
    match v {
        Value::Sequence(items) => {
            assert(items@.len() == items.len());
            let lp = list_parts(items@, f);
            lemma_slen_of(items@.len(), lp, rest, f);
            lemma_items_decode(items@, s, rest, f);
        },
        _ => {},
    }
}

/// Every encoding of a map decodes.
#[verifier::spinoff_prover]
proof fn lemma_map_decodes(v: Value, s: Schema, rest: Seq<u8>, f: Format)
    requires
        conforms(v, s),
        value_size(v) <= usize::MAX,
        v is Mapping,
    ensures
        sdec(s, parts(v, f).0 + rest + parts(v, f).1, f) == Ok::<(nat, nat), Error>(
            (parts(v, f).0.len(), parts(v, f).1.len()),
        ),
    decreases v, 0nat,
{
    let p = parts(v, f);
    let b = p.0 + rest + p.1;
    match v {
        Value::Mapping(entries) => {
            assert(entries@.len() == entries.len());
            let ep = entry_parts(entries@, f);
            lemma_slen_of(entries@.len(), ep, rest, f);
            lemma_entries_decode(entries@, s, rest, f);
        },
        _ => {},
    }
}

/// Every encoding of a tuple decodes.
#[verifier::spinoff_prover]
proof fn lemma_tuple_decodes(v: Value, s: Schema, rest: Seq<u8>, f: Format)
    requires
        conforms(v, s),
        value_size(v) <= usize::MAX,
        v is Tuple,
    ensures
        sdec(s, parts(v, f).0 + rest + parts(v, f).1, f) == Ok::<(nat, nat), Error>(
            (parts(v, f).0.len(), parts(v, f).1.len()),
        ),
    decreases v, 0nat,
{
    let p = parts(v, f);
    let b = p.0 + rest + p.1;
    match v {
        Value::Tuple(items) => {
            let fs = s->Tuple_0@;
            assert(v == Value::Tuple(items));
            assert(fields_conform(items@, fs));
            assert(items@.len() == fs.len());
            assert(fs.subrange(fs.len() - items@.len(), fs.len() as int) =~= fs);
            lemma_fields_decode(items@, s, rest, f);
        },
        _ => {},
    }
}

/// Every encoding of an enum variant decodes.
#[verifier::spinoff_prover]
proof fn lemma_variant_decodes(v: Value, s: Schema, rest: Seq<u8>, f: Format)
    requires
        conforms(v, s),
        value_size(v) <= usize::MAX,
        v is Variant,
    ensures
        sdec(s, parts(v, f).0 + rest + parts(v, f).1, f) == Ok::<(nat, nat), Error>(
            (parts(v, f).0.len(), parts(v, f).1.len()),
        ),
    decreases v, 0nat,
{
    let p = parts(v, f);
    let b = p.0 + rest + p.1;
    match v {
        Value::Variant(idx, x) => {
            let px = parts(*x, f);
            lemma_sdiscr_of(idx, px, rest, f);
            law_encoding_decodes(*x, s->Enum_0@[idx as int], rest, f);
        },
        _ => {},
    }
}

proof fn lemma_items_decode(items: Seq<Value>, s: Schema, rest: Seq<u8>, f: Format)
    requires
        s is Sequence,
        all_conform(items, *s->Sequence_0),
        list_size(items) <= usize::MAX,
    ensures
        sdec_n(s, items.len(), list_parts(items, f).0 + rest + list_parts(items, f).1, f) == Ok::<
            (nat, nat),
            Error,
        >((list_parts(items, f).0.len(), list_parts(items, f).1.len())),
    decreases items, 0nat,
{
    if items.len() > 0 {
        let x = items[0];
        let tl = items.drop_first();
        let px = parts(x, f);
        let t = list_parts(tl, f);
        let b = list_parts(items, f).0 + rest + list_parts(items, f).1;
        let inner = t.0 + rest + t.1;
        assert(b =~= px.0 + inner + px.1);
        law_encoding_decodes(x, *s->Sequence_0, inner, f);
        assert(mid(b, px.0.len(), px.1.len()) =~= inner);
        lemma_items_decode(tl, s, rest, f);
    }
}

proof fn lemma_entries_decode(entries: Seq<(Value, Value)>, s: Schema, rest: Seq<u8>, f: Format)
    requires
        s is Mapping,
        entries_conform(entries, *s->Mapping_0, *s->Mapping_1),
        entry_size(entries) <= usize::MAX,
    ensures
        sdec_n(s, entries.len(), entry_parts(entries, f).0 + rest + entry_parts(entries, f).1, f) == Ok::<
            (nat, nat),
            Error,
        >((entry_parts(entries, f).0.len(), entry_parts(entries, f).1.len())),
    decreases entries, 0nat,
{
    if entries.len() > 0 {
        let e = entries[0];
        let tl = entries.drop_first();
        let pk = parts(e.0, f);
        let pv = parts(e.1, f);
        let t = entry_parts(tl, f);
        let b = entry_parts(entries, f).0 + rest + entry_parts(entries, f).1;
        let inner = t.0 + rest + t.1;
        let after_key = pv.0 + inner + pv.1;
        assert(b =~= pk.0 + after_key + pk.1);
        law_encoding_decodes(e.0, *s->Mapping_0, after_key, f);
        assert(mid(b, pk.0.len(), pk.1.len()) =~= after_key);
        law_encoding_decodes(e.1, *s->Mapping_1, inner, f);
        assert(mid(after_key, pv.0.len(), pv.1.len()) =~= inner);
        assert(mid(b, pk.0.len() + pv.0.len(), pk.1.len() + pv.1.len()) =~= inner);
        lemma_entries_decode(tl, s, rest, f);
    }
}

proof fn lemma_fields_decode(items: Seq<Value>, s: Schema, rest: Seq<u8>, f: Format)
    requires
        s is Tuple,
        items.len() <= s->Tuple_0@.len(),
        fields_conform(
            items,
            s->Tuple_0@.subrange(s->Tuple_0@.len() - items.len(), s->Tuple_0@.len() as int),
        ),
        list_size(items) <= usize::MAX,
    ensures
        sdec_n(s, items.len(), list_parts(items, f).0 + rest + list_parts(items, f).1, f) == Ok::<
            (nat, nat),
            Error,
        >((list_parts(items, f).0.len(), list_parts(items, f).1.len())),
    decreases items, 0nat,
{
    if items.len() > 0 {
        let fs = s->Tuple_0@;
        let k = items.len();
        let ss = fs.subrange(fs.len() - k, fs.len() as int);
        let x = items[0];
        let tl = items.drop_first();
        let px = parts(x, f);
        let t = list_parts(tl, f);
        let b = list_parts(items, f).0 + rest + list_parts(items, f).1;
        let inner = t.0 + rest + t.1;
        assert(ss[0] == fs[fs.len() - k]);
        assert(ss.drop_first() =~= fs.subrange(fs.len() - tl.len(), fs.len() as int));
        assert(b =~= px.0 + inner + px.1);
        law_encoding_decodes(x, fs[fs.len() - k], inner, f);
        assert(mid(b, px.0.len(), px.1.len()) =~= inner);
        lemma_fields_decode(tl, s, rest, f);
    }
}

proof fn lemma_int_injective(a: int, b: int, n: nat, signed: bool, f: Format)
    requires
        int_in_range(a, n, signed),
        int_in_range(b, n, signed),
        int_enc(a, n, signed, f.order, f.little) == int_enc(b, n, signed, f.order, f.little),
    ensures
        a == b,
{
    law_int_round_trip(a, n, signed, f.order, f.little);
    law_int_round_trip(b, n, signed, f.order, f.little);
}

/// Bytes after a length: equal encodings have equal lengths and equal bytes.
proof fn lemma_len_body_injective(n: nat, m: nat, x: (Seq<u8>, Seq<u8>), y: (Seq<u8>, Seq<u8>), f: Format)
    requires
        n <= usize::MAX,
        m <= usize::MAX,
        join(len_parts(n, f), x) == join(len_parts(m, f), y),
    ensures
        n == m,
        x == y,
{
    lemma_slen_of(n, x, Seq::empty(), f);
    lemma_slen_of(m, y, Seq::empty(), f);
    assert(join(len_parts(n, f), x).0 + Seq::<u8>::empty() + join(len_parts(n, f), x).1
        == join(len_parts(m, f), y).0 + Seq::<u8>::empty() + join(len_parts(m, f), y).1);
    lemma_join_cancel(len_parts(n, f), x, y);
}

/// Injectivity for primitives, byte strings, text and unit.
#[verifier::spinoff_prover]
proof fn lemma_leaf_injective(v: Value, w: Value, s: Schema, f: Format)
    requires
        conforms(v, s),
        conforms(w, s),
        value_size(v) <= usize::MAX,
        value_size(w) <= usize::MAX,
        parts(v, f) == parts(w, f),
        !(v is Opt || v is Sequence || v is Mapping || v is Tuple || v is Variant),
    ensures
        equiv(v, w),
{
    lemma_pow256_values();
    match v {
        Value::Bool(x) => lemma_int_injective(if x { 1 } else { 0 }, if w->Bool_0 { 1 } else { 0 }, 1, false, f),
        Value::U8(x) => lemma_int_injective(x as int, w->U8_0 as int, 1, false, f),
        Value::U16(x) => lemma_int_injective(x as int, w->U16_0 as int, 2, false, f),
        Value::U32(x) => lemma_int_injective(x as int, w->U32_0 as int, 4, false, f),
        Value::U64(x) => lemma_int_injective(x as int, w->U64_0 as int, 8, false, f),
        Value::U128(x) => lemma_int_injective(x as int, w->U128_0 as int, 16, false, f),
        Value::I8(x) => lemma_int_injective(x as int, w->I8_0 as int, 1, true, f),
        Value::I16(x) => lemma_int_injective(x as int, w->I16_0 as int, 2, true, f),
        Value::I32(x) => lemma_int_injective(x as int, w->I32_0 as int, 4, true, f),
        Value::I64(x) => lemma_int_injective(x as int, w->I64_0 as int, 8, true, f),
        Value::I128(x) => lemma_int_injective(x as int, w->I128_0 as int, 16, true, f),
        Value::F32(x) => {
            let y = w->F32_0;
            law_float_round_trip(x as nat, 4, f.order, f.masked, f.little);
            law_float_round_trip(y as nat, 4, f.order, f.masked, f.little);
        },
        Value::F64(x) => {
            let y = w->F64_0;
            law_float_round_trip(x as nat, 8, f.order, f.masked, f.little);
            law_float_round_trip(y as nat, 8, f.order, f.masked, f.little);
        },
        Value::Char(c) => {
            let d = w->Char_0;
            lemma_char_value(c, f);
            lemma_char_value(d, f);
            lemma_int_injective(c as u32 as int, d as u32 as int, 4, false, f);
            vstd::utf8::char_u32_cast(c, c as u32);
            vstd::utf8::char_u32_cast(d, d as u32);
        },
        Value::Bytes(b) => {
            let c = w->Bytes_0;
            lemma_len_body_injective(b@.len(), c@.len(), (b@, Seq::empty()), (c@, Seq::empty()), f);
        },
        Value::Str(t) => {
            let u = w->Str_0;
            let et = encode_utf8(t@);
            let eu = encode_utf8(u@);
            lemma_len_body_injective(et.len(), eu.len(), (et, Seq::empty()), (eu, Seq::empty()), f);
            vstd::utf8::encode_utf8_decode_utf8(t@);
            vstd::utf8::encode_utf8_decode_utf8(u@);
        },
        _ => {},
    }
}

/// Injectivity: two values of the same shape with the same encoding are the same value, so a
/// decoded value is the value that was encoded (for values whose size fits in `usize`).
pub proof fn law_parts_injective(v: Value, w: Value, s: Schema, f: Format)
    requires
        conforms(v, s),
        conforms(w, s),
        value_size(v) <= usize::MAX,
        value_size(w) <= usize::MAX,
        parts(v, f) == parts(w, f),
    ensures
        equiv(v, w),
    decreases v, 1nat,
{
    match v {
        Value::Opt(..) => lemma_opt_injective(v, w, s, f),
        Value::Sequence(..) => lemma_seq_injective(v, w, s, f),
        Value::Mapping(..) => lemma_map_injective(v, w, s, f),
        Value::Tuple(..) => lemma_tuple_injective(v, w, s, f),
        Value::Variant(..) => lemma_variant_injective(v, w, s, f),
        _ => lemma_leaf_injective(v, w, s, f),
    }
}

#[verifier::spinoff_prover]
proof fn lemma_opt_injective(v: Value, w: Value, s: Schema, f: Format)
    requires
        conforms(v, s),
        conforms(w, s),
        value_size(v) <= usize::MAX,
        value_size(w) <= usize::MAX,
        parts(v, f) == parts(w, f),
        v is Opt,
    ensures
        equiv(v, w),
    decreases v, 0nat,
{
    lemma_pow256_values();
    law_int_round_trip(0, 1, false, f.order, f.little);
    law_int_round_trip(1, 1, false, f.order, f.little);
    let ov = v->Opt_0;
    let ow = w->Opt_0;
    let pv = parts(v, f);
    if ov is Some && ow is Some {
        let x = *ov.unwrap();
        let y = *ow.unwrap();
        let tag = (int_enc(1, 1, false, f.order, f.little), Seq::<u8>::empty());
        assert(pv == join(tag, parts(x, f)));
        assert(parts(w, f) == join(tag, parts(y, f)));
        lemma_join_cancel(tag, parts(x, f), parts(y, f));
        law_parts_injective(x, y, *s->Opt_0, f);
    } else if ov is Some || ow is Some {
        let t0 = int_enc(0, 1, false, f.order, f.little);
        let t1 = int_enc(1, 1, false, f.order, f.little);
        assert(pv.0.subrange(0, 1) == t0 || pv.0.subrange(0, 1) == t1);
        if ov is Some {
            assert(pv.0.subrange(0, 1) =~= t1);
            assert(parts(w, f).0 =~= t0);
        } else {
            assert(pv.0 =~= t0);
            assert(parts(w, f).0.subrange(0, 1) =~= t1);
        }
    }
}

#[verifier::spinoff_prover]
proof fn lemma_seq_injective(v: Value, w: Value, s: Schema, f: Format)
    requires
        conforms(v, s),
        conforms(w, s),
        value_size(v) <= usize::MAX,
        value_size(w) <= usize::MAX,
        parts(v, f) == parts(w, f),
        v is Sequence,
    ensures
        equiv(v, w),
    decreases v, 0nat,
{
    let a = v->Sequence_0;
    let b = w->Sequence_0;
    assert(a@.len() == a.len() && b@.len() == b.len());
    lemma_len_body_injective(a@.len(), b@.len(), list_parts(a@, f), list_parts(b@, f), f);
    lemma_items_injective(a@, b@, *s->Sequence_0, f);
}

#[verifier::spinoff_prover]
proof fn lemma_map_injective(v: Value, w: Value, s: Schema, f: Format)
    requires
        conforms(v, s),
        conforms(w, s),
        value_size(v) <= usize::MAX,
        value_size(w) <= usize::MAX,
        parts(v, f) == parts(w, f),
        v is Mapping,
    ensures
        equiv(v, w),
    decreases v, 0nat,
{
    let a = v->Mapping_0;
    let b = w->Mapping_0;
    assert(a@.len() == a.len() && b@.len() == b.len());
    lemma_len_body_injective(a@.len(), b@.len(), entry_parts(a@, f), entry_parts(b@, f), f);
    lemma_entries_injective(a@, b@, *s->Mapping_0, *s->Mapping_1, f);
}

#[verifier::spinoff_prover]
proof fn lemma_tuple_injective(v: Value, w: Value, s: Schema, f: Format)
    requires
        conforms(v, s),
        conforms(w, s),
        value_size(v) <= usize::MAX,
        value_size(w) <= usize::MAX,
        parts(v, f) == parts(w, f),
        v is Tuple,
    ensures
        equiv(v, w),
    decreases v, 0nat,
{
    lemma_fields_injective(v->Tuple_0@, w->Tuple_0@, s->Tuple_0@, f);
}

#[verifier::spinoff_prover]
proof fn lemma_variant_injective(v: Value, w: Value, s: Schema, f: Format)
    requires
        conforms(v, s),
        conforms(w, s),
        value_size(v) <= usize::MAX,
        value_size(w) <= usize::MAX,
        parts(v, f) == parts(w, f),
        v is Variant,
    ensures
        equiv(v, w),
    decreases v, 0nat,
{
    let i = v->Variant_0;
    let j = w->Variant_0;
    let x = *v->Variant_1;
    let y = *w->Variant_1;
    let b = parts(v, f).0 + Seq::<u8>::empty() + parts(v, f).1;
    lemma_sdiscr_of(i, parts(x, f), Seq::empty(), f);
    lemma_sdiscr_of(j, parts(y, f), Seq::empty(), f);
    assert(i == j);
    lemma_join_cancel(discr_parts(i, f), parts(x, f), parts(y, f));
    law_parts_injective(x, y, s->Enum_0@[i as int], f);
}

/// Splits equal encodings of two lists whose first values take the same numbers of bytes.
proof fn lemma_first_split(p: (Seq<u8>, Seq<u8>), t: (Seq<u8>, Seq<u8>), q: (Seq<u8>, Seq<u8>), u: (Seq<u8>, Seq<u8>))
    requires
        join(p, t) == join(q, u),
        p.0.len() == q.0.len(),
        p.1.len() == q.1.len(),
    ensures
        p == q,
        t == u,
{
    let j = join(p, t);
    assert(p.0 =~= j.0.subrange(0, p.0.len() as int));
    assert(q.0 =~= j.0.subrange(0, p.0.len() as int));
    assert(t.0 =~= j.0.subrange(p.0.len() as int, j.0.len() as int));
    assert(u.0 =~= j.0.subrange(p.0.len() as int, j.0.len() as int));
    assert(t.1 =~= j.1.subrange(0, j.1.len() - p.1.len()));
    assert(u.1 =~= j.1.subrange(0, j.1.len() - p.1.len()));
    assert(p.1 =~= j.1.subrange(j.1.len() - p.1.len(), j.1.len() as int));
    assert(q.1 =~= j.1.subrange(j.1.len() - p.1.len(), j.1.len() as int));
}

/// The first values of two lists with equal encodings take the same bytes.
proof fn lemma_first_same(x: Value, y: Value, e: Schema, t: (Seq<u8>, Seq<u8>), u: (Seq<u8>, Seq<u8>), f: Format)
    requires
        conforms(x, e),
        conforms(y, e),
        value_size(x) <= usize::MAX,
        value_size(y) <= usize::MAX,
        join(parts(x, f), t) == join(parts(y, f), u),
    ensures
        parts(x, f) == parts(y, f),
        t == u,
{
    let p = parts(x, f);
    let q = parts(y, f);
    let c = join(p, t).0 + join(p, t).1;
    law_encoding_decodes(x, e, t.0 + t.1, f);
    law_encoding_decodes(y, e, u.0 + u.1, f);
    assert(c =~= p.0 + (t.0 + t.1) + p.1);
    assert(c =~= q.0 + (u.0 + u.1) + q.1);
    lemma_first_split(p, t, q, u);
}

proof fn lemma_items_injective(a: Seq<Value>, b: Seq<Value>, e: Schema, f: Format)
    requires
        a.len() == b.len(),
        all_conform(a, e),
        all_conform(b, e),
        list_size(a) <= usize::MAX,
        list_size(b) <= usize::MAX,
        list_parts(a, f) == list_parts(b, f),
    ensures
        equiv_list(a, b),
    decreases a, 0nat,
{
    if a.len() > 0 {
        lemma_first_same(a[0], b[0], e, list_parts(a.drop_first(), f), list_parts(b.drop_first(), f), f);
        law_parts_injective(a[0], b[0], e, f);
        lemma_items_injective(a.drop_first(), b.drop_first(), e, f);
    }
}

proof fn lemma_fields_injective(a: Seq<Value>, b: Seq<Value>, ss: Seq<Schema>, f: Format)
    requires
        fields_conform(a, ss),
        fields_conform(b, ss),
        list_size(a) <= usize::MAX,
        list_size(b) <= usize::MAX,
        list_parts(a, f) == list_parts(b, f),
    ensures
        equiv_list(a, b),
    decreases a, 0nat,
{
    if a.len() > 0 {
        lemma_first_same(a[0], b[0], ss[0], list_parts(a.drop_first(), f), list_parts(b.drop_first(), f), f);
        law_parts_injective(a[0], b[0], ss[0], f);
        lemma_fields_injective(a.drop_first(), b.drop_first(), ss.drop_first(), f);
    }
}

proof fn lemma_entries_injective(a: Seq<(Value, Value)>, b: Seq<(Value, Value)>, k: Schema, v: Schema, f: Format)
    requires
        a.len() == b.len(),
        entries_conform(a, k, v),
        entries_conform(b, k, v),
        entry_size(a) <= usize::MAX,
        entry_size(b) <= usize::MAX,
        entry_parts(a, f) == entry_parts(b, f),
    ensures
        equiv_entries(a, b),
    decreases a, 0nat,
{
    if a.len() > 0 {
        let ta = entry_parts(a.drop_first(), f);
        let tb = entry_parts(b.drop_first(), f);
        let pa = parts(a[0].1, f);
        let pb = parts(b[0].1, f);
        lemma_join_assoc(parts(a[0].0, f), pa, ta);
        lemma_join_assoc(parts(b[0].0, f), pb, tb);
        lemma_first_same(a[0].0, b[0].0, k, join(pa, ta), join(pb, tb), f);
        lemma_first_same(a[0].1, b[0].1, v, ta, tb, f);
        law_parts_injective(a[0].0, b[0].0, k, f);
        law_parts_injective(a[0].1, b[0].1, v, f);
        lemma_entries_injective(a.drop_first(), b.drop_first(), k, v, f);
    }
}

/// Round trip: when the bytes hold the encoding of `v` (around any middle bytes) and also the
/// encoding of a value `w` of the same shape, for instance the value that deserialization
/// returns, then `w` is `v` (for values whose size fits in `usize`).
pub proof fn law_round_trip(v: Value, w: Value, s: Schema, rest_v: Seq<u8>, rest_w: Seq<u8>, f: Format)
    requires
        conforms(v, s),
        conforms(w, s),
        value_size(v) <= usize::MAX,
        value_size(w) <= usize::MAX,
        parts(v, f).0 + rest_v + parts(v, f).1 == parts(w, f).0 + rest_w + parts(w, f).1,
    ensures
        equiv(v, w),
{
    let p = parts(v, f);
    let q = parts(w, f);
    let b = p.0 + rest_v + p.1;
    law_encoding_decodes(v, s, rest_v, f);
    law_encoding_decodes(w, s, rest_w, f);
    assert(p.0 =~= b.subrange(0, p.0.len() as int));
    assert(q.0 =~= b.subrange(0, p.0.len() as int));
    assert(p.1 =~= b.subrange(b.len() - p.1.len(), b.len() as int));
    assert(q.1 =~= b.subrange(b.len() - p.1.len(), b.len() as int));
    law_parts_injective(v, w, s, f);
}

/// Deserializer of structured values from a double-ended buffer
pub struct Deserializer<'a, P> {
    pub reader: DeBytesReader<'a>,
    pub fmt: Format,
    pub params: P,
}

impl<'a, P: SerializerParams> Deserializer<'a, P> {
    pub fn new(reader: DeBytesReader<'a>, params: P) -> (r: Self)
        ensures
            r.reader@ == reader@,
            r.fmt == format_of::<P>(r.fmt.little),
    {
        Deserializer { reader, fmt: resolve_format::<P>(), params }
    }

    pub fn into_reader(self) -> (r: DeBytesReader<'a>)
        ensures
            r@ == self.reader@,
    {
        self.reader
    }

    /// Read a number of `n` bytes.
    fn take_key(&mut self, n: usize) -> (r: Result<u128, Error>)
        requires
            1 <= n <= 16,
        ensures
            final(self).fmt == old(self).fmt,
            r is Ok <==> n <= old(self).reader@.len(),
            r is Ok ==> r.unwrap() == raw_val(ordered(old(self).reader@.subrange(0, n as int), old(self).fmt.order), old(self).fmt.little)
                && r.unwrap() < pow256(n as nat)
                && took_parts(old(self).reader@, final(self).reader@, (old(self).reader@.subrange(0, n as int), Seq::empty())),
            r is Err ==> r == Err::<u128, Error>(Error::PrematureEndOfInput) && final(self).reader@ == old(self).reader@,
    {
        match self.reader.read(n) {
            Ok(b) => {
                let k = decode_raw(b, self.fmt.order, self.fmt.little);
                assert(old(self).reader@ =~= old(self).reader@.subrange(0, n as int) + self.reader@ + Seq::<u8>::empty());
                Ok(k)
            },
            Err(e) => Err(e),
        }
    }

    pub fn deserialize_u8(&mut self) -> (r: Result<u8, Error>)
        ensures
            final(self).fmt == old(self).fmt,
            r is Ok <==> 1 <= old(self).reader@.len(),
            r is Ok ==> took_parts(old(self).reader@, final(self).reader@, (prim_bytes(Value::U8(r.unwrap()), old(self).fmt), Seq::empty())),
            r is Err ==> r == Err::<u8, Error>(Error::PrematureEndOfInput) && final(self).reader@ == old(self).reader@,
    {
        proof { lemma_pow256_values(); }
        match self.take_key(1) {
            Ok(k) => {
                proof { lemma_int_dec_enc(old(self).reader@.subrange(0, 1), 1, false, self.fmt.order, self.fmt.little); }
                Ok(k as u8)
            },
            Err(e) => Err(e),
        }
    }

    pub fn deserialize_u16(&mut self) -> (r: Result<u16, Error>)
        ensures
            final(self).fmt == old(self).fmt,
            r is Ok <==> 2 <= old(self).reader@.len(),
            r is Ok ==> took_parts(old(self).reader@, final(self).reader@, (prim_bytes(Value::U16(r.unwrap()), old(self).fmt), Seq::empty())),
            r is Err ==> r == Err::<u16, Error>(Error::PrematureEndOfInput) && final(self).reader@ == old(self).reader@,
    {
        proof { lemma_pow256_values(); }
        match self.take_key(2) {
            Ok(k) => {
                proof { lemma_int_dec_enc(old(self).reader@.subrange(0, 2), 2, false, self.fmt.order, self.fmt.little); }
                Ok(k as u16)
            },
            Err(e) => Err(e),
        }
    }

    pub fn deserialize_u32(&mut self) -> (r: Result<u32, Error>)
        ensures
            final(self).fmt == old(self).fmt,
            r is Ok <==> 4 <= old(self).reader@.len(),
            r is Ok ==> took_parts(old(self).reader@, final(self).reader@, (prim_bytes(Value::U32(r.unwrap()), old(self).fmt), Seq::empty())),
            r is Err ==> r == Err::<u32, Error>(Error::PrematureEndOfInput) && final(self).reader@ == old(self).reader@,
    {
        proof { lemma_pow256_values(); }
        match self.take_key(4) {
            Ok(k) => {
                proof { lemma_int_dec_enc(old(self).reader@.subrange(0, 4), 4, false, self.fmt.order, self.fmt.little); }
                Ok(k as u32)
            },
            Err(e) => Err(e),
        }
    }

    pub fn deserialize_u64(&mut self) -> (r: Result<u64, Error>)
        ensures
            final(self).fmt == old(self).fmt,
            r is Ok <==> 8 <= old(self).reader@.len(),
            r is Ok ==> took_parts(old(self).reader@, final(self).reader@, (prim_bytes(Value::U64(r.unwrap()), old(self).fmt), Seq::empty())),
            r is Err ==> r == Err::<u64, Error>(Error::PrematureEndOfInput) && final(self).reader@ == old(self).reader@,
    {
        proof { lemma_pow256_values(); }
        match self.take_key(8) {
            Ok(k) => {
                proof { lemma_int_dec_enc(old(self).reader@.subrange(0, 8), 8, false, self.fmt.order, self.fmt.little); }
                Ok(k as u64)
            },
            Err(e) => Err(e),
        }
    }

    pub fn deserialize_u128(&mut self) -> (r: Result<u128, Error>)
        ensures
            final(self).fmt == old(self).fmt,
            r is Ok <==> 16 <= old(self).reader@.len(),
            r is Ok ==> took_parts(old(self).reader@, final(self).reader@, (prim_bytes(Value::U128(r.unwrap()), old(self).fmt), Seq::empty())),
            r is Err ==> r == Err::<u128, Error>(Error::PrematureEndOfInput) && final(self).reader@ == old(self).reader@,
    {
        proof { lemma_pow256_values(); }
        match self.take_key(16) {
            Ok(k) => {
                proof { lemma_int_dec_enc(old(self).reader@.subrange(0, 16), 16, false, self.fmt.order, self.fmt.little); }
                Ok(k as u128)
            },
            Err(e) => Err(e),
        }
    }

    pub fn deserialize_i8(&mut self) -> (r: Result<i8, Error>)
        ensures
            final(self).fmt == old(self).fmt,
            r is Ok <==> 1 <= old(self).reader@.len(),
            r is Ok ==> took_parts(old(self).reader@, final(self).reader@, (prim_bytes(Value::I8(r.unwrap()), old(self).fmt), Seq::empty())),
            r is Err ==> r == Err::<i8, Error>(Error::PrematureEndOfInput) && final(self).reader@ == old(self).reader@,
    {
        proof { lemma_pow256_values(); }
        match self.take_key(1) {
            Ok(k) => {
                proof { lemma_int_dec_enc(old(self).reader@.subrange(0, 1), 1, true, self.fmt.order, self.fmt.little); }
                Ok((k as i128 - 0x80) as i8)
            },
            Err(e) => Err(e),
        }
    }

    pub fn deserialize_i16(&mut self) -> (r: Result<i16, Error>)
        ensures
            final(self).fmt == old(self).fmt,
            r is Ok <==> 2 <= old(self).reader@.len(),
            r is Ok ==> took_parts(old(self).reader@, final(self).reader@, (prim_bytes(Value::I16(r.unwrap()), old(self).fmt), Seq::empty())),
            r is Err ==> r == Err::<i16, Error>(Error::PrematureEndOfInput) && final(self).reader@ == old(self).reader@,
    {
        proof { lemma_pow256_values(); }
        match self.take_key(2) {
            Ok(k) => {
                proof { lemma_int_dec_enc(old(self).reader@.subrange(0, 2), 2, true, self.fmt.order, self.fmt.little); }
                Ok((k as i128 - 0x8000) as i16)
            },
            Err(e) => Err(e),
        }
    }

    pub fn deserialize_i32(&mut self) -> (r: Result<i32, Error>)
        ensures
            final(self).fmt == old(self).fmt,
            r is Ok <==> 4 <= old(self).reader@.len(),
            r is Ok ==> took_parts(old(self).reader@, final(self).reader@, (prim_bytes(Value::I32(r.unwrap()), old(self).fmt), Seq::empty())),
            r is Err ==> r == Err::<i32, Error>(Error::PrematureEndOfInput) && final(self).reader@ == old(self).reader@,
    {
        proof { lemma_pow256_values(); }
        match self.take_key(4) {
            Ok(k) => {
                proof { lemma_int_dec_enc(old(self).reader@.subrange(0, 4), 4, true, self.fmt.order, self.fmt.little); }
                Ok((k as i128 - 0x8000_0000) as i32)
            },
            Err(e) => Err(e),
        }
    }

    pub fn deserialize_i64(&mut self) -> (r: Result<i64, Error>)
        ensures
            final(self).fmt == old(self).fmt,
            r is Ok <==> 8 <= old(self).reader@.len(),
            r is Ok ==> took_parts(old(self).reader@, final(self).reader@, (prim_bytes(Value::I64(r.unwrap()), old(self).fmt), Seq::empty())),
            r is Err ==> r == Err::<i64, Error>(Error::PrematureEndOfInput) && final(self).reader@ == old(self).reader@,
    {
        proof { lemma_pow256_values(); }
        match self.take_key(8) {
            Ok(k) => {
                proof { lemma_int_dec_enc(old(self).reader@.subrange(0, 8), 8, true, self.fmt.order, self.fmt.little); }
                Ok((k as i128 - 0x8000_0000_0000_0000) as i64)
            },
            Err(e) => Err(e),
        }
    }

    pub fn deserialize_i128(&mut self) -> (r: Result<i128, Error>)
        ensures
            final(self).fmt == old(self).fmt,
            r is Ok <==> 16 <= old(self).reader@.len(),
            r is Ok ==> took_parts(old(self).reader@, final(self).reader@, (prim_bytes(Value::I128(r.unwrap()), old(self).fmt), Seq::empty())),
            r is Err ==> r == Err::<i128, Error>(Error::PrematureEndOfInput) && final(self).reader@ == old(self).reader@,
    {
        proof { lemma_pow256_values(); }
        match self.take_key(16) {
            Ok(k) => {
                proof { lemma_int_dec_enc(old(self).reader@.subrange(0, 16), 16, true, self.fmt.order, self.fmt.little); }
                if k >= 0x8000_0000_0000_0000_0000_0000_0000_0000 {
                    Ok((k - 0x8000_0000_0000_0000_0000_0000_0000_0000) as i128)
                } else {
                    Ok(k as i128 - i128::MAX - 1)
                }
            },
            Err(e) => Err(e),
        }
    }

    /// A boolean: 0 or 1; another byte gives `InvalidTagEncoding`
    pub fn deserialize_bool(&mut self) -> (r: Result<bool, Error>)
        ensures
            final(self).fmt == old(self).fmt,
            r is Ok <==> 1 <= old(self).reader@.len()
                && int_dec(old(self).reader@.subrange(0, 1), 1, false, old(self).fmt.order, old(self).fmt.little) <= 1,
            r is Ok ==> took_parts(old(self).reader@, final(self).reader@, (prim_bytes(Value::Bool(r.unwrap()), old(self).fmt), Seq::empty())),
            r is Err ==> (old(self).reader@.len() < 1 ==> r == Err::<bool, Error>(Error::PrematureEndOfInput))
                && (old(self).reader@.len() >= 1 ==> r == Err::<bool, Error>(Error::InvalidTagEncoding)),
    {
        proof { lemma_pow256_values(); }
        match self.take_key(1) {
            Ok(k) => {
                proof { lemma_int_dec_enc(old(self).reader@.subrange(0, 1), 1, false, self.fmt.order, self.fmt.little); }
                if k == 0 {
                    Ok(false)
                } else if k == 1 {
                    Ok(true)
                } else {
                    Err(Error::InvalidTagEncoding)
                }
            },
            Err(e) => Err(e),
        }
    }

    /// The tag of an option: `true` when a value follows; a tag other than 0 or 1 gives
    /// `InvalidTagEncoding`
    pub fn deserialize_option_tag(&mut self) -> (r: Result<bool, Error>)
        ensures
            final(self).fmt == old(self).fmt,
            r is Ok <==> 1 <= old(self).reader@.len()
                && int_dec(old(self).reader@.subrange(0, 1), 1, false, old(self).fmt.order, old(self).fmt.little) <= 1,
            r is Ok ==> took_parts(
                old(self).reader@,
                final(self).reader@,
                (prim_bytes(Value::U8(if r.unwrap() { 1 } else { 0 }), old(self).fmt), Seq::empty()),
            ),
            r is Err ==> (old(self).reader@.len() < 1 ==> r == Err::<bool, Error>(Error::PrematureEndOfInput))
                && (old(self).reader@.len() >= 1 ==> r == Err::<bool, Error>(Error::InvalidTagEncoding)),
    {
        self.deserialize_bool()
    }

    /// A char; a number that is no Unicode scalar value gives `InvalidUtf8Encoding`
    pub fn deserialize_char(&mut self) -> (r: Result<char, Error>)
        ensures
            final(self).fmt == old(self).fmt,
            r is Ok <==> 4 <= old(self).reader@.len() && crate::primitives::valid_scalar(
                int_dec(old(self).reader@.subrange(0, 4), 4, false, old(self).fmt.order, old(self).fmt.little) as nat,
            ),
            r is Ok ==> took_parts(old(self).reader@, final(self).reader@, (prim_bytes(Value::Char(r.unwrap()), old(self).fmt), Seq::empty())),
            r is Err ==> (old(self).reader@.len() < 4 ==> r == Err::<char, Error>(Error::PrematureEndOfInput))
                && (old(self).reader@.len() >= 4 ==> r == Err::<char, Error>(Error::InvalidUtf8Encoding)),
    {
        proof { lemma_pow256_values(); }
        match self.take_key(4) {
            Ok(k) => {
                proof { lemma_int_dec_enc(old(self).reader@.subrange(0, 4), 4, false, self.fmt.order, self.fmt.little); }
                match char_from_u32(k as u32) {
                    Some(c) => Ok(c),
                    None => Err(Error::InvalidUtf8Encoding),
                }
            },
            Err(e) => Err(e),
        }
    }

    /// An `f32`, as its bit pattern
    pub fn deserialize_f32(&mut self) -> (r: Result<u32, Error>)
        ensures
            final(self).fmt == old(self).fmt,
            r is Ok <==> 4 <= old(self).reader@.len(),
            r is Ok ==> took_parts(old(self).reader@, final(self).reader@, (prim_bytes(Value::F32(r.unwrap()), old(self).fmt), Seq::empty())),
            r is Err ==> r == Err::<u32, Error>(Error::PrematureEndOfInput) && final(self).reader@ == old(self).reader@,
    {
        proof { lemma_pow256_values(); }
        match self.take_key(4) {
            Ok(k) => {
                proof { lemma_float_dec_enc(old(self).reader@.subrange(0, 4), 4, self.fmt.order, self.fmt.masked, self.fmt.little); }
                let k = k as u32;
                if !self.fmt.masked {
                    Ok(k)
                } else if k >= 0x8000_0000 {
                    Ok(k - 0x8000_0000)
                } else {
                    Ok(0xFFFF_FFFF - k)
                }
            },
            Err(e) => Err(e),
        }
    }

    /// An `f64`, as its bit pattern
    pub fn deserialize_f64(&mut self) -> (r: Result<u64, Error>)
        ensures
            final(self).fmt == old(self).fmt,
            r is Ok <==> 8 <= old(self).reader@.len(),
            r is Ok ==> took_parts(old(self).reader@, final(self).reader@, (prim_bytes(Value::F64(r.unwrap()), old(self).fmt), Seq::empty())),
            r is Err ==> r == Err::<u64, Error>(Error::PrematureEndOfInput) && final(self).reader@ == old(self).reader@,
    {
        proof { lemma_pow256_values(); }
        match self.take_key(8) {
            Ok(k) => {
                proof { lemma_float_dec_enc(old(self).reader@.subrange(0, 8), 8, self.fmt.order, self.fmt.masked, self.fmt.little); }
                let k = k as u64;
                if !self.fmt.masked {
                    Ok(k)
                } else if k >= 0x8000_0000_0000_0000 {
                    Ok(k - 0x8000_0000_0000_0000)
                } else {
                    Ok(0xFFFF_FFFF_FFFF_FFFF - k)
                }
            },
            Err(e) => Err(e),
        }
    }

    /// A sequence length: from the tail when the parameters say so
    pub fn read_len(&mut self) -> (r: Result<usize, Error>)
        ensures
            final(self).fmt == old(self).fmt,
            r is Ok <==> slen(old(self).reader@, old(self).fmt) is Ok,
            r is Err ==> slen(old(self).reader@, old(self).fmt) == Err::<(nat, nat, nat), Error>(r->Err_0),
            r is Ok ==> took_parts(old(self).reader@, final(self).reader@, len_parts(r.unwrap() as nat, old(self).fmt))
                && slen(old(self).reader@, old(self).fmt) == Ok::<(nat, nat, nat), Error>((
                    r.unwrap() as nat,
                    len_parts(r.unwrap() as nat, old(self).fmt).0.len(),
                    len_parts(r.unwrap() as nat, old(self).fmt).1.len(),
                )),
    {
        if self.fmt.at_tail {
            match varu64_decode_from_tail(&mut self.reader) {
                Ok(v) => {
                    proof {
                        lemma_varu64_dec_tail_enc(old(self).reader@);
                        let s = old(self).reader@;
                        assert(s =~= Seq::<u8>::empty() + self.reader@ + s.subrange(self.reader@.len() as int, s.len() as int));
                    }
                    if v > usize::MAX as u64 {
                        Err(Error::InvalidVarintEncoding)
                    } else {
                        Ok(v as usize)
                    }
                },
                Err(e) => Err(e),
            }
        } else {
            match varu64_decode_from_reader(&mut self.reader) {
                Ok(v) => {
                    proof {
                        lemma_varu64_dec_enc(old(self).reader@);
                        let s = old(self).reader@;
                        let l = crate::varint::varu64_dec(s).unwrap().1;
                        assert(s =~= s.subrange(0, l as int) + self.reader@ + Seq::<u8>::empty());
                    }
                    if v > usize::MAX as u64 {
                        Err(Error::InvalidVarintEncoding)
                    } else {
                        Ok(v as usize)
                    }
                },
                Err(e) => Err(e),
            }
        }
    }

    /// An enum discriminant: from the tail when the parameters say so
    pub fn read_discr(&mut self) -> (r: Result<u32, Error>)
        ensures
            final(self).fmt == old(self).fmt,
            r is Ok <==> sdiscr(old(self).reader@, old(self).fmt) is Ok,
            r is Err ==> sdiscr(old(self).reader@, old(self).fmt) == Err::<(nat, nat, nat), Error>(r->Err_0),
            r is Ok ==> took_parts(old(self).reader@, final(self).reader@, discr_parts(r.unwrap(), old(self).fmt))
                && sdiscr(old(self).reader@, old(self).fmt) == Ok::<(nat, nat, nat), Error>((
                    r.unwrap() as nat,
                    discr_parts(r.unwrap(), old(self).fmt).0.len(),
                    discr_parts(r.unwrap(), old(self).fmt).1.len(),
                )),
    {
        if self.fmt.at_tail {
            match varu32_decode_from_tail(&mut self.reader) {
                Ok(v) => {
                    proof {
                        lemma_varu32_dec_tail_enc(old(self).reader@);
                        let s = old(self).reader@;
                        assert(s =~= Seq::<u8>::empty() + self.reader@ + s.subrange(self.reader@.len() as int, s.len() as int));
                    }
                    Ok(v)
                },
                Err(e) => Err(e),
            }
        } else {
            match varu32_decode_from_reader(&mut self.reader) {
                Ok(v) => {
                    proof {
                        lemma_varu32_dec_enc(old(self).reader@);
                        let s = old(self).reader@;
                        let l = crate::varint::varu32_dec(s).unwrap().1;
                        assert(s =~= s.subrange(0, l as int) + self.reader@ + Seq::<u8>::empty());
                    }
                    Ok(v)
                },
                Err(e) => Err(e),
            }
        }
    }

    /// A byte string: its length, then its bytes
    pub fn deserialize_bytes(&mut self) -> (r: Result<Vec<u8>, Error>)
        ensures
            final(self).fmt == old(self).fmt,
            r is Ok <==> sdec(Schema::Bytes, old(self).reader@, old(self).fmt) is Ok,
            r is Err ==> sdec(Schema::Bytes, old(self).reader@, old(self).fmt) == Err::<(nat, nat), Error>(r->Err_0),
            r is Ok ==> took_parts(old(self).reader@, final(self).reader@, parts(Value::Bytes(r.unwrap()), old(self).fmt))
                && sdec(Schema::Bytes, old(self).reader@, old(self).fmt) == Ok::<(nat, nat), Error>((
                    parts(Value::Bytes(r.unwrap()), old(self).fmt).0.len(),
                    parts(Value::Bytes(r.unwrap()), old(self).fmt).1.len(),
                ))
                && slen(old(self).reader@, old(self).fmt) == Ok::<(nat, nat, nat), Error>((
                    r.unwrap()@.len(),
                    len_parts(r.unwrap()@.len(), old(self).fmt).0.len(),
                    len_parts(r.unwrap()@.len(), old(self).fmt).1.len(),
                )),
    {
        match self.read_len() {
            Ok(n) => {
                let ghost mid0 = self.reader@;
                proof {
                    lemma_took_mid(old(self).reader@, mid0, len_parts(n as nat, self.fmt));
                }
                match self.reader.read(n) {
                    Ok(b) => {
                        let v = vstd::slice::slice_to_vec(b);
                        proof {
                            assert(mid0 =~= b@ + self.reader@ + Seq::<u8>::empty());
                            lemma_took_join(old(self).reader@, mid0, self.reader@, len_parts(n as nat, self.fmt), (v@, Seq::empty()));
                        }
                        Ok(v)
                    },
                    Err(e) => Err(e),
                }
            },
            Err(e) => Err(e),
        }
    }

    /// Text: a byte string that must be valid UTF-8, else `InvalidUtf8Encoding`
    pub fn deserialize_string(&mut self) -> (r: Result<String, Error>)
        ensures
            final(self).fmt == old(self).fmt,
            r is Ok <==> sdec(Schema::Str, old(self).reader@, old(self).fmt) is Ok,
            r is Err ==> sdec(Schema::Str, old(self).reader@, old(self).fmt) == Err::<(nat, nat), Error>(r->Err_0),
            r is Ok ==> took_parts(old(self).reader@, final(self).reader@, parts(Value::Str(r.unwrap()), old(self).fmt))
                && sdec(Schema::Str, old(self).reader@, old(self).fmt) == Ok::<(nat, nat), Error>((
                    parts(Value::Str(r.unwrap()), old(self).fmt).0.len(),
                    parts(Value::Str(r.unwrap()), old(self).fmt).1.len(),
                )),
    {
        match self.deserialize_bytes() {
            Ok(b) => {
                let ghost bv = b@;
                proof {
                    let lp = len_parts(bv.len(), self.fmt);
                    let o = old(self).reader@;
                    assert(o == (lp.0 + bv) + self.reader@ + lp.1);
                    assert(o.subrange(lp.0.len() as int, (lp.0.len() + bv.len()) as int) =~= bv);
                }
                match string_from_utf8(b) {
                    Some(s) => {
                        assert(encode_utf8(s@) == bv);
                        Ok(s)
                    },
                    None => Err(Error::InvalidUtf8Encoding),
                }
            },
            Err(e) => Err(e),
        }
    }

    /// A value of an unsigned integer shape
    #[verifier::spinoff_prover]
    fn deserialize_unsigned(&mut self, schema: &Schema) -> (r: Result<Value, Error>)
        requires
            *schema is U8 || *schema is U16 || *schema is U32 || *schema is U64 || *schema is U128,
        ensures
            final(self).fmt == old(self).fmt,
            r is Ok <==> sdec(*schema, old(self).reader@, old(self).fmt) is Ok,
            r is Err ==> sdec(*schema, old(self).reader@, old(self).fmt) == Err::<(nat, nat), Error>(r->Err_0),
            r is Ok ==> conforms(r.unwrap(), *schema)
                && took_parts(old(self).reader@, final(self).reader@, parts(r.unwrap(), old(self).fmt))
                && sdec(*schema, old(self).reader@, old(self).fmt) == Ok::<(nat, nat), Error>((
                    parts(r.unwrap(), old(self).fmt).0.len(),
                    parts(r.unwrap(), old(self).fmt).1.len(),
                )),
    {
        match schema {
            Schema::U8 => match self.deserialize_u8() {
                Ok(x) => {
                    let v = Value::U8(x);
                    proof {
                        crate::value::lemma_prim_parts(v, self.fmt);
                    }
                    assert(conforms(v, *schema));
                    Ok(v)
                },
                Err(e) => Err(e),
            },
            Schema::U16 => match self.deserialize_u16() {
                Ok(x) => {
                    let v = Value::U16(x);
                    proof {
                        crate::value::lemma_prim_parts(v, self.fmt);
                    }
                    assert(conforms(v, *schema));
                    Ok(v)
                },
                Err(e) => Err(e),
            },
            Schema::U32 => match self.deserialize_u32() {
                Ok(x) => {
                    let v = Value::U32(x);
                    proof {
                        crate::value::lemma_prim_parts(v, self.fmt);
                    }
                    assert(conforms(v, *schema));
                    Ok(v)
                },
                Err(e) => Err(e),
            },
            Schema::U64 => match self.deserialize_u64() {
                Ok(x) => {
                    let v = Value::U64(x);
                    proof {
                        crate::value::lemma_prim_parts(v, self.fmt);
                    }
                    assert(conforms(v, *schema));
                    Ok(v)
                },
                Err(e) => Err(e),
            },
            Schema::U128 => match self.deserialize_u128() {
                Ok(x) => {
                    let v = Value::U128(x);
                    proof {
                        crate::value::lemma_prim_parts(v, self.fmt);
                    }
                    assert(conforms(v, *schema));
                    Ok(v)
                },
                Err(e) => Err(e),
            },
            _ => Err(Error::DeserializeAnyNotSupported),
        }
    }

    /// A value of a signed integer shape
    #[verifier::spinoff_prover]
    fn deserialize_signed(&mut self, schema: &Schema) -> (r: Result<Value, Error>)
        requires
            *schema is I8 || *schema is I16 || *schema is I32 || *schema is I64 || *schema is I128,
        ensures
            final(self).fmt == old(self).fmt,
            r is Ok <==> sdec(*schema, old(self).reader@, old(self).fmt) is Ok,
            r is Err ==> sdec(*schema, old(self).reader@, old(self).fmt) == Err::<(nat, nat), Error>(r->Err_0),
            r is Ok ==> conforms(r.unwrap(), *schema)
                && took_parts(old(self).reader@, final(self).reader@, parts(r.unwrap(), old(self).fmt))
                && sdec(*schema, old(self).reader@, old(self).fmt) == Ok::<(nat, nat), Error>((
                    parts(r.unwrap(), old(self).fmt).0.len(),
                    parts(r.unwrap(), old(self).fmt).1.len(),
                )),
    {
        match schema {
            Schema::I8 => match self.deserialize_i8() {
                Ok(x) => {
                    let v = Value::I8(x);
                    proof {
                        crate::value::lemma_prim_parts(v, self.fmt);
                    }
                    assert(conforms(v, *schema));
                    Ok(v)
                },
                Err(e) => Err(e),
            },
            Schema::I16 => match self.deserialize_i16() {
                Ok(x) => {
                    let v = Value::I16(x);
                    proof {
                        crate::value::lemma_prim_parts(v, self.fmt);
                    }
                    assert(conforms(v, *schema));
                    Ok(v)
                },
                Err(e) => Err(e),
            },
            Schema::I32 => match self.deserialize_i32() {
                Ok(x) => {
                    let v = Value::I32(x);
                    proof {
                        crate::value::lemma_prim_parts(v, self.fmt);
                    }
                    assert(conforms(v, *schema));
                    Ok(v)
                },
                Err(e) => Err(e),
            },
            Schema::I64 => match self.deserialize_i64() {
                Ok(x) => {
                    let v = Value::I64(x);
                    proof {
                        crate::value::lemma_prim_parts(v, self.fmt);
                    }
                    assert(conforms(v, *schema));
                    Ok(v)
                },
                Err(e) => Err(e),
            },
            Schema::I128 => match self.deserialize_i128() {
                Ok(x) => {
                    let v = Value::I128(x);
                    proof {
                        crate::value::lemma_prim_parts(v, self.fmt);
                    }
                    assert(conforms(v, *schema));
                    Ok(v)
                },
                Err(e) => Err(e),
            },
            _ => Err(Error::DeserializeAnyNotSupported),
        }
    }

    /// A value of a boolean, float or char shape
    #[verifier::spinoff_prover]
    fn deserialize_scalar(&mut self, schema: &Schema) -> (r: Result<Value, Error>)
        requires
            *schema is Bool || *schema is F32 || *schema is F64 || *schema is Char,
        ensures
            final(self).fmt == old(self).fmt,
            r is Ok <==> sdec(*schema, old(self).reader@, old(self).fmt) is Ok,
            r is Err ==> sdec(*schema, old(self).reader@, old(self).fmt) == Err::<(nat, nat), Error>(r->Err_0),
            r is Ok ==> conforms(r.unwrap(), *schema)
                && took_parts(old(self).reader@, final(self).reader@, parts(r.unwrap(), old(self).fmt))
                && sdec(*schema, old(self).reader@, old(self).fmt) == Ok::<(nat, nat), Error>((
                    parts(r.unwrap(), old(self).fmt).0.len(),
                    parts(r.unwrap(), old(self).fmt).1.len(),
                )),
    {
        match schema {
            Schema::Bool => match self.deserialize_bool() {
                Ok(x) => {
                    let v = Value::Bool(x);
                    proof {
                        crate::value::lemma_prim_parts(v, self.fmt);
                    }
                    assert(conforms(v, *schema));
                    Ok(v)
                },
                Err(e) => Err(e),
            },
            Schema::F32 => match self.deserialize_f32() {
                Ok(x) => {
                    let v = Value::F32(x);
                    proof {
                        crate::value::lemma_prim_parts(v, self.fmt);
                    }
                    assert(conforms(v, *schema));
                    Ok(v)
                },
                Err(e) => Err(e),
            },
            Schema::F64 => match self.deserialize_f64() {
                Ok(x) => {
                    let v = Value::F64(x);
                    proof {
                        crate::value::lemma_prim_parts(v, self.fmt);
                    }
                    assert(conforms(v, *schema));
                    Ok(v)
                },
                Err(e) => Err(e),
            },
            Schema::Char => match self.deserialize_char() {
                Ok(x) => {
                    let v = Value::Char(x);
                    proof {
                        crate::value::lemma_char_value(x, self.fmt);
                    }
                    Ok(v)
                },
                Err(e) => Err(e),
            },
            _ => Err(Error::DeserializeAnyNotSupported),
        }
    }

    /// A value of a byte string or text shape
    #[verifier::spinoff_prover]
    fn deserialize_blob(&mut self, schema: &Schema) -> (r: Result<Value, Error>)
        requires
            *schema is Bytes || *schema is Str,
        ensures
            final(self).fmt == old(self).fmt,
            r is Ok <==> sdec(*schema, old(self).reader@, old(self).fmt) is Ok,
            r is Err ==> sdec(*schema, old(self).reader@, old(self).fmt) == Err::<(nat, nat), Error>(r->Err_0),
            r is Ok ==> conforms(r.unwrap(), *schema)
                && took_parts(old(self).reader@, final(self).reader@, parts(r.unwrap(), old(self).fmt))
                && sdec(*schema, old(self).reader@, old(self).fmt) == Ok::<(nat, nat), Error>((
                    parts(r.unwrap(), old(self).fmt).0.len(),
                    parts(r.unwrap(), old(self).fmt).1.len(),
                )),
    {
        match schema {
            Schema::Bytes => match self.deserialize_bytes() {
                Ok(x) => {
                    let v = Value::Bytes(x);
                    assert(conforms(v, *schema));
                    Ok(v)
                },
                Err(e) => Err(e),
            },
            Schema::Str => match self.deserialize_string() {
                Ok(x) => {
                    let v = Value::Str(x);
                    assert(conforms(v, *schema));
                    Ok(v)
                },
                Err(e) => Err(e),
            },
            _ => Err(Error::DeserializeAnyNotSupported),
        }
    }

    /// A value of shape `schema`
    #[verifier::spinoff_prover]
    #[verifier::rlimit(100)]
    pub fn deserialize_value(&mut self, schema: &Schema) -> (r: Result<Value, Error>)
        ensures
            final(self).fmt == old(self).fmt,
            r is Ok <==> sdec(*schema, old(self).reader@, old(self).fmt) is Ok,
            r is Err ==> sdec(*schema, old(self).reader@, old(self).fmt) == Err::<(nat, nat), Error>(r->Err_0),
            r is Ok ==> conforms(r.unwrap(), *schema)
                && took_parts(old(self).reader@, final(self).reader@, parts(r.unwrap(), old(self).fmt))
                && sdec(*schema, old(self).reader@, old(self).fmt) == Ok::<(nat, nat), Error>((
                    parts(r.unwrap(), old(self).fmt).0.len(),
                    parts(r.unwrap(), old(self).fmt).1.len(),
                )),
        decreases schema, 2nat,
    {
        match schema {
            Schema::Unit => {
                assert(self.reader@ =~= Seq::<u8>::empty() + self.reader@ + Seq::<u8>::empty());
                Ok(Value::Unit)
            },
            Schema::Opt(_) => self.read_option(schema),
            Schema::Sequence(_) => self.read_sequence(schema),
            Schema::Mapping(_, _) => self.read_mapping(schema),
            Schema::Tuple(_) => match self.read_fields(schema) {
                Ok(items) => Ok(Value::Tuple(items)),
                Err(e) => Err(e),
            },
            Schema::Enum(_) => self.read_variant(schema),
            Schema::Bool | Schema::F32 | Schema::F64 | Schema::Char => self.deserialize_scalar(schema),
            Schema::Bytes | Schema::Str => self.deserialize_blob(schema),
            Schema::U8 | Schema::U16 | Schema::U32 | Schema::U64 | Schema::U128 => self.deserialize_unsigned(schema),
            Schema::I8 | Schema::I16 | Schema::I32 | Schema::I64 | Schema::I128 => self.deserialize_signed(schema),
        }
    }

    /// A value of an option shape: the tag, then the value if present
    #[verifier::spinoff_prover]
    fn read_option(&mut self, schema: &Schema) -> (r: Result<Value, Error>)
        requires
            *schema is Opt,
        ensures
            final(self).fmt == old(self).fmt,
            r is Ok <==> sdec(*schema, old(self).reader@, old(self).fmt) is Ok,
            r is Err ==> sdec(*schema, old(self).reader@, old(self).fmt) == Err::<(nat, nat), Error>(r->Err_0),
            r is Ok ==> conforms(r.unwrap(), *schema)
                && took_parts(old(self).reader@, final(self).reader@, parts(r.unwrap(), old(self).fmt))
                && sdec(*schema, old(self).reader@, old(self).fmt) == Ok::<(nat, nat), Error>((
                    parts(r.unwrap(), old(self).fmt).0.len(),
                    parts(r.unwrap(), old(self).fmt).1.len(),
                )),
        decreases schema, 1nat,
    {
        let ghost o = self.reader@;
        match schema {
            Schema::Opt(inner) => match self.deserialize_option_tag() {
                Ok(t) => {
                    let ghost m = self.reader@;
                    let ghost tp = (prim_bytes(Value::U8(if t { 1 } else { 0 }), self.fmt), Seq::<u8>::empty());
                    proof {
                        lemma_pow256_values();
                        crate::primitives::law_int_round_trip(if t { 1 } else { 0 }, 1, false, self.fmt.order, self.fmt.little);
                        lemma_took_mid(o, m, tp);
                        assert(o.subrange(0, 1) == tp.0);
                        assert(m == o.subrange(1, o.len() as int));
                    }
                    if !t {
                        Ok(Value::Opt(None))
                    } else {
                        match self.deserialize_value(inner) {
                            Ok(x) => {
                                proof {
                                    lemma_took_join(o, m, self.reader@, tp, parts(x, self.fmt));
                                }
                                Ok(Value::Opt(Some(Box::new(x))))
                            },
                            Err(e) => Err(e),
                        }
                    }
                },
                Err(e) => Err(e),
            },
            _ => Err(Error::DeserializeAnyNotSupported),
        }
    }

    /// A value of a sequence shape: the length, then the elements
    #[verifier::spinoff_prover]
    fn read_sequence(&mut self, schema: &Schema) -> (r: Result<Value, Error>)
        requires
            *schema is Sequence,
        ensures
            final(self).fmt == old(self).fmt,
            r is Ok <==> sdec(*schema, old(self).reader@, old(self).fmt) is Ok,
            r is Err ==> sdec(*schema, old(self).reader@, old(self).fmt) == Err::<(nat, nat), Error>(r->Err_0),
            r is Ok ==> conforms(r.unwrap(), *schema)
                && took_parts(old(self).reader@, final(self).reader@, parts(r.unwrap(), old(self).fmt))
                && sdec(*schema, old(self).reader@, old(self).fmt) == Ok::<(nat, nat), Error>((
                    parts(r.unwrap(), old(self).fmt).0.len(),
                    parts(r.unwrap(), old(self).fmt).1.len(),
                )),
        decreases schema, 1nat,
    {
        let ghost o = self.reader@;
        match schema {
            Schema::Sequence(_) => match self.read_len() {
                Ok(n) => {
                    let ghost m = self.reader@;
                    proof {
                        lemma_took_mid(o, m, len_parts(n as nat, self.fmt));
                    }
                    match self.read_items(n, schema) {
                        Ok(items) => {
                            proof {
                                lemma_took_join(o, m, self.reader@, len_parts(n as nat, self.fmt), list_parts(items@, self.fmt));
                            }
                            Ok(Value::Sequence(items))
                        },
                        Err(e) => Err(e),
                    }
                },
                Err(e) => Err(e),
            },
            _ => Err(Error::DeserializeAnyNotSupported),
        }
    }

    /// A value of a map shape: the length, then the entries
    #[verifier::spinoff_prover]
    fn read_mapping(&mut self, schema: &Schema) -> (r: Result<Value, Error>)
        requires
            *schema is Mapping,
        ensures
            final(self).fmt == old(self).fmt,
            r is Ok <==> sdec(*schema, old(self).reader@, old(self).fmt) is Ok,
            r is Err ==> sdec(*schema, old(self).reader@, old(self).fmt) == Err::<(nat, nat), Error>(r->Err_0),
            r is Ok ==> conforms(r.unwrap(), *schema)
                && took_parts(old(self).reader@, final(self).reader@, parts(r.unwrap(), old(self).fmt))
                && sdec(*schema, old(self).reader@, old(self).fmt) == Ok::<(nat, nat), Error>((
                    parts(r.unwrap(), old(self).fmt).0.len(),
                    parts(r.unwrap(), old(self).fmt).1.len(),
                )),
        decreases schema, 1nat,
    {
        let ghost o = self.reader@;
        match schema {
            Schema::Mapping(_, _) => match self.read_len() {
                Ok(n) => {
                    let ghost m = self.reader@;
                    proof {
                        lemma_took_mid(o, m, len_parts(n as nat, self.fmt));
                    }
                    match self.read_entries(n, schema) {
                        Ok(entries) => {
                            proof {
                                lemma_took_join(o, m, self.reader@, len_parts(n as nat, self.fmt), entry_parts(entries@, self.fmt));
                            }
                            Ok(Value::Mapping(entries))
                        },
                        Err(e) => Err(e),
                    }
                },
                Err(e) => Err(e),
            },
            _ => Err(Error::DeserializeAnyNotSupported),
        }
    }

    /// A value of an enum shape: the discriminant, then the payload
    #[verifier::spinoff_prover]
    fn read_variant(&mut self, schema: &Schema) -> (r: Result<Value, Error>)
        requires
            *schema is Enum,
        ensures
            final(self).fmt == old(self).fmt,
            r is Ok <==> sdec(*schema, old(self).reader@, old(self).fmt) is Ok,
            r is Err ==> sdec(*schema, old(self).reader@, old(self).fmt) == Err::<(nat, nat), Error>(r->Err_0),
            r is Ok ==> conforms(r.unwrap(), *schema)
                && took_parts(old(self).reader@, final(self).reader@, parts(r.unwrap(), old(self).fmt))
                && sdec(*schema, old(self).reader@, old(self).fmt) == Ok::<(nat, nat), Error>((
                    parts(r.unwrap(), old(self).fmt).0.len(),
                    parts(r.unwrap(), old(self).fmt).1.len(),
                )),
        decreases schema, 1nat,
    {
        let ghost o = self.reader@;
        match schema {
            Schema::Enum(variants) => match self.read_discr() {
                Ok(idx) => {
                    if idx as usize >= variants.len() {
                        return Err(Error::InvalidTagEncoding);
                    }
                    let ghost m = self.reader@;
                    proof {
                        lemma_took_mid(o, m, discr_parts(idx, self.fmt));
                    }
                    match self.deserialize_value(&variants[idx as usize]) {
                        Ok(x) => {
                            proof {
                                lemma_took_join(o, m, self.reader@, discr_parts(idx, self.fmt), parts(x, self.fmt));
                            }
                            Ok(Value::Variant(idx, Box::new(x)))
                        },
                        Err(e) => Err(e),
                    }
                },
                Err(e) => Err(e),
            },
            _ => Err(Error::DeserializeAnyNotSupported),
        }
    }

    /// `n` values of the element shape of sequence shape `seq`
    fn read_items(&mut self, n: usize, seq: &Schema) -> (r: Result<Vec<Value>, Error>)
        requires
            seq is Sequence,
        ensures
            final(self).fmt == old(self).fmt,
            r is Ok <==> sdec_n(*seq, n as nat, old(self).reader@, old(self).fmt) is Ok,
            r is Err ==> sdec_n(*seq, n as nat, old(self).reader@, old(self).fmt) == Err::<(nat, nat), Error>(r->Err_0),
            r is Ok ==> r.unwrap()@.len() == n && all_conform(r.unwrap()@, *seq->Sequence_0)
                && took_parts(old(self).reader@, final(self).reader@, list_parts(r.unwrap()@, old(self).fmt))
                && sdec_n(*seq, n as nat, old(self).reader@, old(self).fmt) == Ok::<(nat, nat), Error>((
                    list_parts(r.unwrap()@, old(self).fmt).0.len(),
                    list_parts(r.unwrap()@, old(self).fmt).1.len(),
                )),
        decreases seq, 0nat,
    {
        let elem: &Schema = match seq {
            Schema::Sequence(e) => e,
            _ => {
                return Err(Error::DeserializeAnyNotSupported);
            },
        };
        assert(*elem == *seq->Sequence_0);
        assert(decreases_to!(*seq => *elem));
        let mut items: Vec<Value> = Vec::new();
        let mut i: usize = 0;
        assert(old(self).reader@ =~= Seq::<u8>::empty() + old(self).reader@ + Seq::<u8>::empty());
        while i < n
            invariant
                i <= n,
                items@.len() == i,
                self.fmt == old(self).fmt,
                seq is Sequence,
                *elem == *seq->Sequence_0,
                decreases_to!(*seq => *elem),
                all_conform(items@, *elem),
                took_parts(old(self).reader@, self.reader@, list_parts(items@, self.fmt)),
                sdec_n(*seq, n as nat, old(self).reader@, self.fmt) == shift(
                    (list_parts(items@, self.fmt).0.len(), list_parts(items@, self.fmt).1.len()),
                    sdec_n(*seq, (n - i) as nat, self.reader@, self.fmt),
                ),
            decreases n - i,
        {
            let ghost cur = self.reader@;
            match self.deserialize_value(elem) {
                Ok(x) => {
                    proof {
                        let px = parts(x, self.fmt);
                        lemma_took_mid(cur, self.reader@, px);
                        lemma_took_join(old(self).reader@, cur, self.reader@, list_parts(items@, self.fmt), px);
                        lemma_list_parts_push(items@, x, self.fmt);
                        lemma_all_conform_push(items@, x, *elem);
                    }
                    items.push(x);
                },
                Err(e) => {
                    return Err(e);
                },
            }
            i = i + 1;
        }
        Ok(items)
    }

    /// `n` entries of map shape `map`
    fn read_entries(&mut self, n: usize, map: &Schema) -> (r: Result<Vec<(Value, Value)>, Error>)
        requires
            map is Mapping,
        ensures
            final(self).fmt == old(self).fmt,
            r is Ok <==> sdec_n(*map, n as nat, old(self).reader@, old(self).fmt) is Ok,
            r is Err ==> sdec_n(*map, n as nat, old(self).reader@, old(self).fmt) == Err::<(nat, nat), Error>(r->Err_0),
            r is Ok ==> r.unwrap()@.len() == n && entries_conform(r.unwrap()@, *map->Mapping_0, *map->Mapping_1)
                && took_parts(old(self).reader@, final(self).reader@, entry_parts(r.unwrap()@, old(self).fmt))
                && sdec_n(*map, n as nat, old(self).reader@, old(self).fmt) == Ok::<(nat, nat), Error>((
                    entry_parts(r.unwrap()@, old(self).fmt).0.len(),
                    entry_parts(r.unwrap()@, old(self).fmt).1.len(),
                )),
        decreases map, 0nat,
    {
        let (k, v): (&Schema, &Schema) = match map {
            Schema::Mapping(k, v) => (k, v),
            _ => {
                return Err(Error::DeserializeAnyNotSupported);
            },
        };
        assert(*k == *map->Mapping_0 && *v == *map->Mapping_1);
        assert(decreases_to!(*map => *k));
        assert(decreases_to!(*map => *v));
        let mut entries: Vec<(Value, Value)> = Vec::new();
        let mut i: usize = 0;
        assert(old(self).reader@ =~= Seq::<u8>::empty() + old(self).reader@ + Seq::<u8>::empty());
        while i < n
            invariant
                i <= n,
                entries@.len() == i,
                self.fmt == old(self).fmt,
                map is Mapping,
                *k == *map->Mapping_0,
                *v == *map->Mapping_1,
                decreases_to!(*map => *k),
                decreases_to!(*map => *v),
                entries_conform(entries@, *k, *v),
                took_parts(old(self).reader@, self.reader@, entry_parts(entries@, self.fmt)),
                sdec_n(*map, n as nat, old(self).reader@, self.fmt) == shift(
                    (entry_parts(entries@, self.fmt).0.len(), entry_parts(entries@, self.fmt).1.len()),
                    sdec_n(*map, (n - i) as nat, self.reader@, self.fmt),
                ),
            decreases n - i,
        {
            let ghost m0 = self.reader@;
            let key = match self.deserialize_value(k) {
                Ok(x) => x,
                Err(e) => {
                    return Err(e);
                },
            };
            let ghost m1 = self.reader@;
            proof {
                lemma_took_mid(m0, m1, parts(key, self.fmt));
            }
            let val = match self.deserialize_value(v) {
                Ok(x) => x,
                Err(e) => {
                    return Err(e);
                },
            };
            proof {
                let pk = parts(key, self.fmt);
                let pv = parts(val, self.fmt);
                lemma_took_mid(m1, self.reader@, pv);
                lemma_mid_mid(m0, pk.0.len(), pk.1.len(), pv.0.len(), pv.1.len());
                lemma_took_join(m0, m1, self.reader@, pk, pv);
                lemma_took_join(old(self).reader@, m0, self.reader@, entry_parts(entries@, self.fmt), join(pk, pv));
                lemma_took_mid(m0, self.reader@, join(pk, pv));
                lemma_entry_parts_push(entries@, (key, val), self.fmt);
                lemma_entries_conform_push(entries@, (key, val), *k, *v);
            }
            entries.push((key, val));
            i = i + 1;
        }
        Ok(entries)
    }

    /// One value for each field of tuple shape `tuple`, in order
    fn read_fields(&mut self, tuple: &Schema) -> (r: Result<Vec<Value>, Error>)
        requires
            tuple is Tuple,
        ensures
            final(self).fmt == old(self).fmt,
            r is Ok <==> sdec(*tuple, old(self).reader@, old(self).fmt) is Ok,
            r is Err ==> sdec(*tuple, old(self).reader@, old(self).fmt) == Err::<(nat, nat), Error>(r->Err_0),
            r is Ok ==> fields_conform(r.unwrap()@, tuple->Tuple_0@)
                && took_parts(old(self).reader@, final(self).reader@, list_parts(r.unwrap()@, old(self).fmt))
                && sdec(*tuple, old(self).reader@, old(self).fmt) == Ok::<(nat, nat), Error>((
                    list_parts(r.unwrap()@, old(self).fmt).0.len(),
                    list_parts(r.unwrap()@, old(self).fmt).1.len(),
                )),
        decreases tuple, 1nat,
    {
        let fields: &Vec<Schema> = match tuple {
            Schema::Tuple(f) => f,
            _ => {
                return Err(Error::DeserializeAnyNotSupported);
            },
        };
        assert(*fields == tuple->Tuple_0);
        let ghost len = fields@.len();
        let mut items: Vec<Value> = Vec::new();
        let mut i: usize = 0;
        assert(old(self).reader@ =~= Seq::<u8>::empty() + old(self).reader@ + Seq::<u8>::empty());
        assert(fields@.subrange(0, 0) =~= Seq::<Schema>::empty());
        while i < fields.len()
            invariant
                i <= fields@.len(),
                len == fields@.len(),
                items@.len() == i,
                self.fmt == old(self).fmt,
                tuple is Tuple,
                *fields == tuple->Tuple_0,
                fields_conform(items@, fields@.subrange(0, i as int)),
                took_parts(old(self).reader@, self.reader@, list_parts(items@, self.fmt)),
                sdec(*tuple, old(self).reader@, self.fmt) == shift(
                    (list_parts(items@, self.fmt).0.len(), list_parts(items@, self.fmt).1.len()),
                    sdec_n(*tuple, (len - i) as nat, self.reader@, self.fmt),
                ),
            decreases fields@.len() - i,
        {
            let ghost cur = self.reader@;
            proof {
                assert(decreases_to!(*tuple => tuple->Tuple_0));
                assert(decreases_to!(tuple->Tuple_0 => tuple->Tuple_0@));
                assert(decreases_to!(tuple->Tuple_0@ => fields@[i as int]));
                assert(fields@[len - (len - i)] == fields@[i as int]);
            }
            match self.deserialize_value(&fields[i]) {
                Ok(x) => {
                    proof {
                        let px = parts(x, self.fmt);
                        lemma_took_mid(cur, self.reader@, px);
                        lemma_took_join(old(self).reader@, cur, self.reader@, list_parts(items@, self.fmt), px);
                        lemma_list_parts_push(items@, x, self.fmt);
                        lemma_fields_conform_push(items@, fields@.subrange(0, i as int), x, fields@[i as int]);
                        assert(fields@.subrange(0, i as int).push(fields@[i as int]) =~= fields@.subrange(0, i + 1));
                    }
                    items.push(x);
                },
                Err(e) => {
                    return Err(e);
                },
            }
            i = i + 1;
        }
        assert(fields@.subrange(0, i as int) =~= fields@);
        Ok(items)
    }
}

} // verus!
