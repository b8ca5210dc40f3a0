//! Prefix-free encoding of byte sequences with escaping
//!
//! Byte `0xF8` is escaped as `{ 0xF8, 0xFF }` and a sequence ends with `{ 0xF8, 0x01 }` for
//! ascending order; descending order complements every byte (`{ 0x07, 0x00 }` and
//! `{ 0x07, 0xFE }`). `0xF8` never appears in valid UTF-8, and escaping zero would be impractical
//! (it is too common).
use vstd::prelude::*;
use vstd::utf8::{encode_utf8, valid_utf8};
use crate::buf::{DeBytesReader, WriteBytes};
use crate::errors::Error;
use crate::ordering::{complement, lex_lt, ordered};
use crate::params::{EncodingParams, Order};
use crate::primitives::wrote;

verus! {

/// Escape byte, also the first byte of the terminator (ascending order)
pub const ESC_START: u8 = 0xF8;

/// Follows `ESC_START` for an escaped `0xF8` byte
pub const ESC_ESC: u8 = 0xFF;

/// Follows `ESC_START` at the end of a sequence
pub const ESC_TERM: u8 = 0x01;

/// `x` with every `0xF8` escaped, without terminator (ascending order).
pub open spec fn esc_body(x: Seq<u8>) -> Seq<u8>
    decreases x.len(),
{
    if x.len() == 0 {
        Seq::empty()
    } else {
        (if x[0] == ESC_START {
            seq![ESC_START, ESC_ESC]
        } else {
            seq![x[0]]
        }) + esc_body(x.drop_first())
    }
}

/// The escaped, terminated encoding of `x` under `order`.
pub open spec fn escaped(x: Seq<u8>, order: Order) -> Seq<u8> {
    ordered(esc_body(x) + seq![ESC_START, ESC_TERM], order)
}

/// Decoding of an ascending escaped sequence at the start of `s`: its content and the number
/// of bytes it takes, or the error met first.
pub open spec fn unesc(s: Seq<u8>) -> Result<(Seq<u8>, nat), Error>
    decreases s.len(),
{
    if s.len() == 0 {
        Err(Error::PrematureEndOfInput)
    } else if s[0] != ESC_START {
        match unesc(s.drop_first()) {
            Ok((c, k)) => Ok((seq![s[0]] + c, k + 1)),
            Err(e) => Err(e),
        }
    } else if s.len() < 2 {
        Err(Error::PrematureEndOfInput)
    } else if s[1] == ESC_ESC {
        match unesc(s.subrange(2, s.len() as int)) {
            Ok((c, k)) => Ok((seq![ESC_START] + c, k + 2)),
            Err(e) => Err(e),
        }
    } else if s[1] == ESC_TERM {
        Ok((Seq::empty(), 2))
    } else {
        Err(Error::InvalidByteSequenceEscape)
    }
}

/// Decoding of an escaped sequence at the start of `s` under `order`.
pub open spec fn unescaped(s: Seq<u8>, order: Order) -> Result<(Seq<u8>, nat), Error> {
    unesc(ordered(s, order))
}

/// `r`, with `acc` in front of its content and `i` more bytes taken.
pub open spec fn after_prefix(acc: Seq<u8>, i: nat, r: Result<(Seq<u8>, nat), Error>) -> Result<(Seq<u8>, nat), Error> {
    match r {
        Ok((c, k)) => Ok((acc + c, k + i)),
        Err(e) => Err(e),
    }
}

proof fn lemma_after_prefix_assoc(a: Seq<u8>, i: nat, b: Seq<u8>, j: nat, r: Result<(Seq<u8>, nat), Error>)
    ensures
        after_prefix(a, i, after_prefix(b, j, r)) == after_prefix(a + b, i + j, r),
{
    match r {
        Ok((c, k)) => {
            assert(a + (b + c) =~= (a + b) + c);
        },
        Err(e) => {},
    }
}

/// The escaped, terminated encoding of `value` under `order`.
pub fn escape_bytes(value: &[u8], order: Order) -> (r: Vec<u8>)
    ensures
        r@ == escaped(value@, order),
{
    let mut out: Vec<u8> = Vec::new();
    let mut i: usize = value.len();
    let ghost mut body: Seq<u8> = Seq::empty();
    let mut rev: Vec<u8> = Vec::new();
    // build the body back to front, so that it unfolds as `esc_body` does
    while i > 0
        invariant
            i <= value@.len(),
            rev@.reverse() == esc_body(value@.subrange(i as int, value@.len() as int)),
        decreases i,
    {
        let ghost before = rev@;
        i = i - 1;
        let b = value[i];
        let ghost tail = value@.subrange(i + 1, value@.len() as int);
        assert(value@.subrange(i as int, value@.len() as int).drop_first() =~= tail);
        if b == ESC_START {
            rev.push(ESC_ESC);
            rev.push(ESC_START);
            assert(rev@.reverse() =~= seq![ESC_START, ESC_ESC] + before.reverse());
        } else {
            rev.push(b);
            assert(rev@.reverse() =~= seq![b] + before.reverse());
        }
    }
    assert(value@.subrange(0, value@.len() as int) =~= value@);
    let mut j: usize = rev.len();
    let desc = order == Order::Descending;
    while j > 0
        invariant
            j <= rev@.len(),
            out@ == ordered(rev@.subrange(j as int, rev@.len() as int).reverse(), order),
            desc == (order == Order::Descending),
        decreases j,
    {
        j = j - 1;
        let b = rev[j];
        out.push(if desc { 255 - b } else { b });
        assert(rev@.subrange(j as int, rev@.len() as int).reverse() =~= rev@.subrange(j + 1, rev@.len() as int).reverse().push(b));
        assert(out@ =~= ordered(rev@.subrange(j as int, rev@.len() as int).reverse(), order));
    }
    assert(rev@.subrange(0, rev@.len() as int) =~= rev@);
    let ghost before = out@;
    out.push(if desc { 255 - ESC_START } else { ESC_START });
    out.push(if desc { 255 - ESC_TERM } else { ESC_TERM });
    assert(out@ =~= escaped(value@, order));
    out
}

/// Decode the escaped sequence at the start of `s` under `order`: its content and the number
/// of bytes it takes.
pub fn unescape(s: &[u8], order: Order) -> (r: Result<(Vec<u8>, usize), Error>)
    ensures
        match r {
            Ok((c, k)) => unescaped(s@, order) == Ok::<(Seq<u8>, nat), Error>((c@, k as nat)),
            Err(e) => unescaped(s@, order) == Err::<(Seq<u8>, nat), Error>(e),
        },
{
    let ghost t = ordered(s@, order);
    let desc = order == Order::Descending;
    let mut out: Vec<u8> = Vec::new();
    let mut i: usize = 0;
    assert(t.subrange(0, t.len() as int) =~= t);
    assert(after_prefix(Seq::empty(), 0, unesc(t)) =~= unesc(t)) by {
        match unesc(t) {
            Ok((c, k)) => {
                assert(Seq::<u8>::empty() + c =~= c);
            },
            Err(e) => {},
        }
    }
    loop
        invariant
            t == ordered(s@, order),
            t.len() == s@.len(),
            desc == (order == Order::Descending),
            i <= s@.len(),
            unesc(t) == after_prefix(out@, i as nat, unesc(t.subrange(i as int, t.len() as int))),
        decreases s@.len() - i,
    {
        let ghost rest = t.subrange(i as int, t.len() as int);
        if i >= s.len() {
            return Err(Error::PrematureEndOfInput);
        }
        let b = if desc { 255 - s[i] } else { s[i] };
        assert(b == rest[0]);
        if b != ESC_START {
            let ghost acc = out@;
            out.push(b);
            assert(rest.drop_first() =~= t.subrange(i + 1, t.len() as int));
            assert(unesc(rest) == after_prefix(seq![b], 1, unesc(rest.drop_first())));
            proof {
                lemma_after_prefix_assoc(acc, i as nat, seq![b], 1, unesc(rest.drop_first()));
            }
            assert(out@ == acc + seq![b]);
            i = i + 1;
        } else if i + 1 >= s.len() {
            return Err(Error::PrematureEndOfInput);
        } else {
            let c = if desc { 255 - s[i + 1] } else { s[i + 1] };
            assert(c == rest[1]);
            if c == ESC_ESC {
                let ghost acc = out@;
                out.push(ESC_START);
                assert(rest.subrange(2, rest.len() as int) =~= t.subrange(i + 2, t.len() as int));
                assert(unesc(rest) == after_prefix(seq![ESC_START], 2, unesc(rest.subrange(2, rest.len() as int))));
                proof {
                    lemma_after_prefix_assoc(acc, i as nat, seq![ESC_START], 2, unesc(rest.subrange(2, rest.len() as int)));
                }
                assert(out@ == acc + seq![ESC_START]);
                i = i + 2;
            } else if c == ESC_TERM {
                assert(out@ + Seq::<u8>::empty() =~= out@);
                return Ok((out, i + 2));
            } else {
                return Err(Error::InvalidByteSequenceEscape);
            }
        }
    }
}

/// Serialize a byte sequence to its escaped representation
pub fn serialize_bytes<W: WriteBytes, P: EncodingParams>(writer: &mut W, value: &[u8], _param: P) -> (r: Result<(), Error>)
    requires
        old(writer).wf(),
    ensures
        wrote(*old(writer), *final(writer), r, escaped(value@, P::spec_order())),
{
    let e = escape_bytes(value, P::order());
    writer.write(e.as_slice())
}

/// Length of the byte sequence that the reader holds next; the reader is not advanced
pub fn bytes_length<P: EncodingParams>(reader: &DeBytesReader, _param: P) -> (r: Result<usize, Error>)
    ensures
        match r {
            Ok(n) => unescaped(reader@, P::spec_order()) is Ok
                && n == unescaped(reader@, P::spec_order()).unwrap().0.len(),
            Err(e) => unescaped(reader@, P::spec_order()) == Err::<(Seq<u8>, nat), Error>(e),
        },
{
    match unescape(reader.remaining_buffer(), P::order()) {
        Ok((c, _k)) => Ok(c.len()),
        Err(e) => Err(e),
    }
}

/// Deserialize an escaped byte sequence
///
/// On success the reader is advanced past the terminator; on failure it is left as it was.
pub fn deserialize_bytes_to_vec<P: EncodingParams>(reader: &mut DeBytesReader, _param: P) -> (r: Result<Vec<u8>, Error>)
    ensures
        match r {
            Ok(c) => unescaped(old(reader)@, P::spec_order()) is Ok && {
                let (d, k) = unescaped(old(reader)@, P::spec_order()).unwrap();
                c@ == d && final(reader)@ == old(reader)@.subrange(k as int, old(reader)@.len() as int)
            },
            Err(e) => unescaped(old(reader)@, P::spec_order()) == Err::<(Seq<u8>, nat), Error>(e)
                && final(reader)@ == old(reader)@,
        },
{
    match unescape(reader.remaining_buffer(), P::order()) {
        Ok((c, k)) => {
            proof {
                lemma_unesc_len(ordered(old(reader)@, P::spec_order()));
            }
            reader.advance(k);
            Ok(c)
        },
        Err(e) => Err(e),
    }
}

/// Deserialize an escaped byte sequence and write its content to `out`
pub fn deserialize_bytes_to_writer<W: WriteBytes, P: EncodingParams>(
    reader: &mut DeBytesReader,
    out: &mut W,
    param: P,
) -> (r: Result<(), Error>)
    requires
        old(out).wf(),
    ensures
        unescaped(old(reader)@, P::spec_order()) is Err ==> r == Err::<(), Error>(
            unescaped(old(reader)@, P::spec_order())->Err_0,
        ),
        unescaped(old(reader)@, P::spec_order()) is Ok ==> {
            let (d, k) = unescaped(old(reader)@, P::spec_order()).unwrap();
            final(reader)@ == old(reader)@.subrange(k as int, old(reader)@.len() as int)
                && wrote(*old(out), *final(out), r, d)
        },
{
    match deserialize_bytes_to_vec(reader, param) {
        Ok(c) => out.write(c.as_slice()),
        Err(e) => Err(e),
    }
}

/// A decoded sequence is never longer than what it was decoded from.
pub proof fn lemma_unesc_len(s: Seq<u8>)
    ensures
        unesc(s) is Ok ==> unesc(s).unwrap().1 <= s.len(),
    decreases s.len(),
{
    if s.len() > 0 {
        if s[0] != ESC_START {
            lemma_unesc_len(s.drop_first());
        } else if s.len() >= 2 && s[1] == ESC_ESC {
            lemma_unesc_len(s.subrange(2, s.len() as int));
        }
    }
}


/// `a` is a proper prefix of `b`.
pub open spec fn proper_prefix(a: Seq<u8>, b: Seq<u8>) -> bool {
    a.len() < b.len() && b.subrange(0, a.len() as int) == a
}

/// `x` is a proper prefix of `y` and `y` goes on with a byte below the escape byte: the only
/// case in which escaping does not keep the order of `x` and `y`, for the terminator then
/// sorts above the rest of `y` (e.g. `x = []`, `y = [0]`).
pub open spec fn prefix_below_escape(x: Seq<u8>, y: Seq<u8>) -> bool {
    proper_prefix(x, y) && y[x.len() as int] < ESC_START
}

/// Ascending escaped body and terminator of `x`.
spec fn term_esc(x: Seq<u8>) -> Seq<u8> {
    esc_body(x) + seq![ESC_START, ESC_TERM]
}

/// The chunk that escaping gives for byte `b`.
spec fn esc_chunk(b: u8) -> Seq<u8> {
    if b == ESC_START {
        seq![ESC_START, ESC_ESC]
    } else {
        seq![b]
    }
}

proof fn lemma_term_esc_unfold(x: Seq<u8>)
    requires
        x.len() > 0,
    ensures
        term_esc(x) == esc_chunk(x[0]) + term_esc(x.drop_first()),
{
    assert(term_esc(x) =~= esc_chunk(x[0]) + term_esc(x.drop_first()));
}

proof fn lemma_ordered_concat(a: Seq<u8>, b: Seq<u8>, order: Order)
    ensures
        ordered(a + b, order) == ordered(a, order) + ordered(b, order),
{
    assert(complement(a + b) =~= complement(a) + complement(b));
}

proof fn lemma_unesc_term_esc(x: Seq<u8>, rest: Seq<u8>)
    ensures
        unesc(term_esc(x) + rest) == Ok::<(Seq<u8>, nat), Error>((x, term_esc(x).len())),
    decreases x.len(),
{
    let s = term_esc(x) + rest;
    if x.len() == 0 {
        assert(esc_body(x) =~= Seq::<u8>::empty());
        assert(s[0] == ESC_START && s[1] == ESC_TERM);
        assert(x =~= Seq::<u8>::empty());
    } else {
        lemma_term_esc_unfold(x);
        let x1 = x.drop_first();
        lemma_unesc_term_esc(x1, rest);
        if x[0] == ESC_START {
            assert(s.subrange(2, s.len() as int) =~= term_esc(x1) + rest);
            assert(seq![ESC_START] + x1 =~= x);
        } else {
            assert(s.drop_first() =~= term_esc(x1) + rest);
            assert(seq![x[0]] + x1 =~= x);
        }
    }
}

/// Round trip of escaped sequences: the encoding of `x`, followed by any bytes, decodes to `x`
/// and takes exactly the encoding.
pub proof fn law_escaped_round_trip(x: Seq<u8>, rest: Seq<u8>, order: Order)
    ensures
        unescaped(escaped(x, order) + rest, order) == Ok::<(Seq<u8>, nat), Error>(
            (x, escaped(x, order).len()),
        ),
{
    let t = term_esc(x);
    let e = escaped(x, order);
    assert(e == ordered(t, order));
    lemma_ordered_concat(e, rest, order);
    crate::ordering::lemma_ordered_involutive(t, order);
    assert(ordered(e + rest, order) == t + ordered(rest, order));
    assert(e.len() == t.len());
    lemma_unesc_term_esc(x, ordered(rest, order));
}

/// Nested escaping: escaping twice and then unescaping twice gives the bytes back.
pub proof fn law_nested_escape(x: Seq<u8>, order: Order)
    ensures
        unescaped(escaped(escaped(x, order), order), order) is Ok,
        unescaped(unescaped(escaped(escaped(x, order), order), order).unwrap().0, order)
            == Ok::<(Seq<u8>, nat), Error>((x, escaped(x, order).len())),
{
    let e = escaped(x, order);
    law_escaped_round_trip(e, Seq::empty(), order);
    assert(escaped(e, order) + Seq::<u8>::empty() =~= escaped(e, order));
    law_escaped_round_trip(x, Seq::empty(), order);
    assert(e + Seq::<u8>::empty() =~= e);
}

proof fn lemma_lex_single_first(a: Seq<u8>, b: Seq<u8>)
    requires
        a.len() > 0,
        b.len() > 0,
        a[0] != b[0],
    ensures
        lex_lt(a, b) == (a[0] < b[0]),
{
}

proof fn lemma_term_esc_order(x: Seq<u8>, y: Seq<u8>)
    requires
        !prefix_below_escape(x, y),
        !prefix_below_escape(y, x),
    ensures
        lex_lt(term_esc(x), term_esc(y)) <==> lex_lt(x, y),
        !proper_prefix(term_esc(x), term_esc(y)),
    decreases x.len() + y.len(),
{
    let ex = term_esc(x);
    let ey = term_esc(y);
    if x.len() == 0 && y.len() == 0 {
        crate::ordering::lemma_lex_irrefl(ex);
        assert(x =~= y);
    } else if x.len() == 0 {
        lemma_term_esc_unfold(y);
        assert(esc_body(x) =~= Seq::<u8>::empty());
        assert(y.subrange(0, 0) =~= x);
        assert(ex[0] == ESC_START && ex[1] == ESC_TERM);
        if y[0] == ESC_START {
            assert(ey[0] == ESC_START && ey[1] == ESC_ESC);
            assert(ex.drop_first()[0] == ESC_TERM && ey.drop_first()[0] == ESC_ESC);
            lemma_lex_single_first(ex.drop_first(), ey.drop_first());
            assert(ey.subrange(0, ex.len() as int)[1] == ESC_ESC);
        } else {
            assert(ey[0] == y[0]);
            assert(ey.subrange(0, ex.len() as int)[0] == y[0]);
        }
        assert(!proper_prefix(ex, ey));
    } else if y.len() == 0 {
        lemma_term_esc_unfold(x);
        assert(esc_body(y) =~= Seq::<u8>::empty());
        assert(x.subrange(0, 0) =~= y);
        assert(ey[0] == ESC_START && ey[1] == ESC_TERM);
        if x[0] == ESC_START {
            assert(ex[0] == ESC_START && ex[1] == ESC_ESC);
            assert(ex.drop_first()[0] == ESC_ESC && ey.drop_first()[0] == ESC_TERM);
            lemma_lex_single_first(ex.drop_first(), ey.drop_first());
        } else {
            assert(ex[0] == x[0]);
        }
        assert(ex.len() >= 3);
        assert(!proper_prefix(ex, ey));
    } else {
        lemma_term_esc_unfold(x);
        lemma_term_esc_unfold(y);
        let x1 = x.drop_first();
        let y1 = y.drop_first();
        if x[0] != y[0] {
            assert(ex[0] == x[0] && ey[0] == y[0]);
            if ex.len() < ey.len() {
                assert(ey.subrange(0, ex.len() as int)[0] == ey[0]);
            }
            assert(!proper_prefix(ex, ey));
        } else {
            assert(esc_chunk(x[0]) == esc_chunk(y[0]));
            let c = esc_chunk(x[0]);
            if prefix_below_escape(x1, y1) {
                assert(y.subrange(0, x.len() as int) =~= seq![x[0]] + y1.subrange(0, x1.len() as int));
                assert(x =~= seq![x[0]] + x1);
            }
            if prefix_below_escape(y1, x1) {
                assert(x.subrange(0, y.len() as int) =~= seq![y[0]] + x1.subrange(0, y1.len() as int));
                assert(y =~= seq![y[0]] + y1);
            }
            lemma_term_esc_order(x1, y1);
            crate::ordering::lemma_lex_concat(c, c, term_esc(x1), term_esc(y1));
            assert(x.drop_first() == x1 && y.drop_first() == y1);
            if proper_prefix(ex, ey) {
                assert(ey.subrange(0, ex.len() as int) =~= c + ey.subrange(c.len() as int, ex.len() as int));
                assert(term_esc(y1).subrange(0, term_esc(x1).len() as int) =~= ey.subrange(c.len() as int, ex.len() as int));
                assert(ex.subrange(c.len() as int, ex.len() as int) =~= term_esc(x1));
                assert(ey.subrange(c.len() as int, ex.len() as int) =~= ey.subrange(0, ex.len() as int).subrange(c.len() as int, ex.len() as int));
                assert(proper_prefix(term_esc(x1), term_esc(y1)));
            }
        }
    }
}

proof fn lemma_complement_order_free(a: Seq<u8>, b: Seq<u8>)
    requires
        !proper_prefix(a, b),
        !proper_prefix(b, a),
    ensures
        lex_lt(complement(a), complement(b)) <==> lex_lt(b, a),
    decreases a.len(),
{
    if a.len() == 0 {
        if b.len() > 0 {
            assert(b.subrange(0, 0) =~= a);
        }
    } else if b.len() == 0 {
        assert(a.subrange(0, 0) =~= b);
    } else if a[0] == b[0] {
        let a1 = a.drop_first();
        let b1 = b.drop_first();
        if proper_prefix(a1, b1) {
            assert(b.subrange(0, a.len() as int) =~= seq![a[0]] + b1.subrange(0, a1.len() as int));
            assert(a =~= seq![a[0]] + a1);
        }
        if proper_prefix(b1, a1) {
            assert(a.subrange(0, b.len() as int) =~= seq![b[0]] + a1.subrange(0, b1.len() as int));
            assert(b =~= seq![b[0]] + b1);
        }
        assert(complement(a).drop_first() =~= complement(a1));
        assert(complement(b).drop_first() =~= complement(b1));
        lemma_complement_order_free(a1, b1);
    }
}

/// Order of escaped sequences: encodings compare as the byte strings do (reversed for
/// `Descending`), unless one string is a proper prefix of the other that the longer one
/// continues with a byte below the escape byte.
pub proof fn law_escaped_order(x: Seq<u8>, y: Seq<u8>, order: Order)
    requires
        !prefix_below_escape(x, y),
        !prefix_below_escape(y, x),
    ensures
        lex_lt(escaped(x, order), escaped(y, order)) <==> if order == Order::Descending {
            lex_lt(y, x)
        } else {
            lex_lt(x, y)
        },
{
    lemma_term_esc_order(x, y);
    lemma_term_esc_order(y, x);
    if order == Order::Descending {
        lemma_complement_order_free(term_esc(x), term_esc(y));
    }
}

/// Write the bitwise complement of `input`
pub fn write_complement_bytes<W: WriteBytes>(writer: &mut W, input: &[u8]) -> (r: Result<(), Error>)
    requires
        old(writer).wf(),
    ensures
        wrote(*old(writer), *final(writer), r, complement(input@)),
{
    let mut c: Vec<u8> = Vec::new();
    let mut i: usize = 0;
    while i < input.len()
        invariant
            i <= input@.len(),
            c@ == complement(input@.subrange(0, i as int)),
        decreases input@.len() - i,
    {
        c.push(255 - input[i]);
        i = i + 1;
        assert(c@ =~= complement(input@.subrange(0, i as int)));
    }
    assert(input@.subrange(0, input@.len() as int) =~= input@);
    writer.write(c.as_slice())
}

/// Serialize a byte sequence as is, without escaping or terminator; complemented for
/// `Descending` order. Only for a sequence that extends to the end of the data.
pub fn serialize_bytes_noesc<W: WriteBytes, P: EncodingParams>(writer: &mut W, v: &[u8], _param: P) -> (r: Result<(), Error>)
    requires
        old(writer).wf(),
    ensures
        wrote(*old(writer), *final(writer), r, ordered(v@, P::spec_order())),
{
    if P::order() == Order::Descending {
        write_complement_bytes(writer, v)
    } else {
        writer.write(v)
    }
}

/// Deserialize all remaining bytes as a sequence written by `serialize_bytes_noesc`, into `writer`
pub fn deserialize_bytes_noesc_to_writer<W: WriteBytes, P: EncodingParams>(
    reader: &mut DeBytesReader,
    writer: &mut W,
    _param: P,
) -> (r: Result<(), Error>)
    requires
        old(writer).wf(),
    ensures
        wrote(*old(writer), *final(writer), r, ordered(old(reader)@, P::spec_order())),
        r is Ok ==> final(reader)@.len() == 0,
        r is Err ==> final(reader)@ == old(reader)@,
{
    let b = reader.remaining_buffer();
    let r = if P::order() == Order::Descending {
        write_complement_bytes(writer, b)
    } else {
        writer.write(b)
    };
    if r.is_ok() {
        reader.advance(b.len());
    }
    r
}

/// Deserialize all remaining bytes as a sequence written by `serialize_bytes_noesc`
pub fn deserialize_bytes_noesc_to_vec<P: EncodingParams>(reader: &mut DeBytesReader, param: P) -> (r: Result<Vec<u8>, Error>)
    ensures
        r is Ok,
        r.unwrap()@ == ordered(old(reader)@, P::spec_order()),
        final(reader)@.len() == 0,
{
    let mut res: Vec<u8> = Vec::new();
    let r = deserialize_bytes_noesc_to_writer(reader, &mut res, param);
    assert(Seq::<u8>::empty() + ordered(old(reader)@, P::spec_order()) =~= ordered(old(reader)@, P::spec_order()));
    match r {
        Ok(()) => Ok(res),
        Err(e) => Err(e),
    }
}

/// Relies on String::from_utf8: `Some` exactly for valid UTF-8, holding the text those bytes
/// encode.
#[verifier::external_body]
pub(crate) fn string_from_utf8(v: Vec<u8>) -> (r: Option<String>)
    ensures
        r is Some <==> valid_utf8(v@),
        r is Some ==> encode_utf8(r.unwrap()@) == v@,
{
    String::from_utf8(v).ok()
}

/// Deserialize all remaining bytes as text written by `serialize_bytes_noesc`
pub fn deserialize_bytes_noesc_to_string<P: EncodingParams>(reader: &mut DeBytesReader, param: P) -> (r: Result<String, Error>)
    ensures
        final(reader)@.len() == 0,
        r is Ok <==> valid_utf8(ordered(old(reader)@, P::spec_order())),
        r is Ok ==> encode_utf8(r.unwrap()@) == ordered(old(reader)@, P::spec_order()),
        r is Err ==> r == Err::<String, Error>(Error::InvalidUtf8Encoding),
{
    match deserialize_bytes_noesc_to_vec(reader, param) {
        Ok(b) => match string_from_utf8(b) {
            Some(s) => Ok(s),
            None => Err(Error::InvalidUtf8Encoding),
        },
        Err(e) => Err(e),
    }
}

} // verus!
