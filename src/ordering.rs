//! Byte strings as numbers and the lexicographical order of byte strings.
use vstd::prelude::*;
use vstd::arithmetic::div_mod::lemma_fundamental_div_mod;
use crate::params::Order;

verus! {

/// Lexicographical "less than" on byte strings, the order of `memcmp` and of `<` on `Vec<u8>`:
/// a proper prefix sorts first.
pub open spec fn lex_lt(a: Seq<u8>, b: Seq<u8>) -> bool
    decreases a.len(),
{
    if a.len() == 0 {
        b.len() > 0
    } else if b.len() == 0 {
        false
    } else if a[0] != b[0] {
        a[0] < b[0]
    } else {
        lex_lt(a.drop_first(), b.drop_first())
    }
}

/// `256^n`
pub open spec fn pow256(n: nat) -> nat
    decreases n,
{
    if n == 0 {
        1
    } else {
        256 * pow256((n - 1) as nat)
    }
}

/// The `n` low bytes of `v`, most significant first.
pub open spec fn be(v: nat, n: nat) -> Seq<u8>
    decreases n,
{
    if n == 0 {
        Seq::empty()
    } else {
        be(v / 256, (n - 1) as nat).push((v % 256) as u8)
    }
}

/// The number that `s` writes, most significant byte first.
pub open spec fn be_val(s: Seq<u8>) -> nat
    decreases s.len(),
{
    if s.len() == 0 {
        0
    } else {
        be_val(s.drop_last()) * 256 + s.last() as nat
    }
}

/// The `n` low bytes of `v`, least significant first.
pub open spec fn le(v: nat, n: nat) -> Seq<u8> {
    be(v, n).reverse()
}

/// The number that `s` writes, least significant byte first.
pub open spec fn le_val(s: Seq<u8>) -> nat {
    be_val(s.reverse())
}

/// Bitwise complement of every byte.
pub open spec fn complement(s: Seq<u8>) -> Seq<u8> {
    s.map_values(|b: u8| (255 - b) as u8)
}

/// `s` as stored under `order`: complemented for `Descending`.
pub open spec fn ordered(s: Seq<u8>, order: Order) -> Seq<u8> {
    if order == Order::Descending {
        complement(s)
    } else {
        s
    }
}

pub proof fn lemma_pow256_pos(n: nat)
    ensures
        pow256(n) >= 1,
    decreases n,
{
    if n > 0 {
        lemma_pow256_pos((n - 1) as nat);
    }
}

pub proof fn lemma_be_len(v: nat, n: nat)
    ensures
        be(v, n).len() == n,
    decreases n,
{
    if n > 0 {
        lemma_be_len(v / 256, (n - 1) as nat);
    }
}

/// Writing and reading back the `n` low bytes gives `v` when it fits.
pub proof fn lemma_be_val_be(v: nat, n: nat)
    requires
        v < pow256(n),
    ensures
        be_val(be(v, n)) == v,
    decreases n,
{
    if n > 0 {
        let s = be(v, n);
        lemma_fundamental_div_mod(v as int, 256);
        assert(v / 256 < pow256((n - 1) as nat)) by (nonlinear_arith)
            requires
                v < 256 * pow256((n - 1) as nat),
                v == 256 * (v / 256) + v % 256,
                0 <= v % 256,
        ;
        lemma_be_val_be(v / 256, (n - 1) as nat);
        assert(s.drop_last() == be(v / 256, (n - 1) as nat));
    }
}

/// A value read from `n` bytes is below `256^n`.
pub proof fn lemma_be_val_bound(s: Seq<u8>)
    ensures
        be_val(s) < pow256(s.len()),
    decreases s.len(),
{
    if s.len() > 0 {
        lemma_be_val_bound(s.drop_last());
        let p = pow256((s.len() - 1) as nat);
        let x = be_val(s.drop_last());
        let y = s.last() as nat;
        assert(x * 256 + y < 256 * p) by (nonlinear_arith)
            requires
                x < p,
                y < 256,
        ;
    }
}

/// Bytes read as a number and written back give the same bytes.
pub proof fn lemma_be_be_val(s: Seq<u8>)
    ensures
        be(be_val(s), s.len()) == s,
    decreases s.len(),
{
    if s.len() > 0 {
        let x = be_val(s.drop_last());
        let v = be_val(s);
        let y = s.last() as int;
        assert(v / 256 == x && v % 256 == y) by (nonlinear_arith)
            requires
                v == x * 256 + y,
                0 <= y < 256,
                x >= 0,
        ;
        lemma_be_be_val(s.drop_last());
        assert(s == s.drop_last().push(s.last()));
    }
}

/// Complementing twice gives the bytes back.
pub proof fn lemma_complement_involutive(s: Seq<u8>)
    ensures
        complement(complement(s)) == s,
{
    assert(complement(complement(s)) =~= s);
}

pub proof fn lemma_ordered_involutive(s: Seq<u8>, order: Order)
    ensures
        ordered(ordered(s, order), order) == s,
{
    lemma_complement_involutive(s);
}

/// Comparing two strings that start with equal-length parts: the parts decide unless equal.
pub proof fn lemma_lex_concat(p: Seq<u8>, q: Seq<u8>, s: Seq<u8>, t: Seq<u8>)
    requires
        p.len() == q.len(),
    ensures
        lex_lt(p + s, q + t) == if p == q {
            lex_lt(s, t)
        } else {
            lex_lt(p, q)
        },
    decreases p.len(),
{
    if p.len() == 0 {
        assert(p + s == s);
        assert(q + t == t);
        assert(p == q);
    } else {
        assert((p + s)[0] == p[0]);
        assert((q + t)[0] == q[0]);
        assert((p + s).drop_first() == p.drop_first() + s);
        assert((q + t).drop_first() == q.drop_first() + t);
        lemma_lex_concat(p.drop_first(), q.drop_first(), s, t);
        if p[0] == q[0] {
            if p.drop_first() == q.drop_first() {
                assert(p == seq![p[0]] + p.drop_first());
                assert(q == seq![q[0]] + q.drop_first());
            } else {
                assert(p != q);
            }
        }
    }
}

/// `lex_lt` is irreflexive.
pub proof fn lemma_lex_irrefl(a: Seq<u8>)
    ensures
        !lex_lt(a, a),
    decreases a.len(),
{
    if a.len() > 0 {
        lemma_lex_irrefl(a.drop_first());
    }
}

/// Big-endian bytes of equal width sort as the numbers do.
pub proof fn lemma_be_order(a: nat, b: nat, n: nat)
    requires
        a < pow256(n),
        b < pow256(n),
    ensures
        lex_lt(be(a, n), be(b, n)) <==> a < b,
    decreases n,
{
    if n == 0 {
        assert(pow256(0) == 1);
    } else {
        let m = (n - 1) as nat;
        lemma_fundamental_div_mod(a as int, 256);
        lemma_fundamental_div_mod(b as int, 256);
        assert(a / 256 < pow256(m) && b / 256 < pow256(m)) by (nonlinear_arith)
            requires
                a < 256 * pow256(m),
                b < 256 * pow256(m),
                a == 256 * (a / 256) + a % 256,
                b == 256 * (b / 256) + b % 256,
                0 <= a % 256,
                0 <= b % 256,
        ;
        lemma_be_order(a / 256, b / 256, m);
        lemma_be_len(a / 256, m);
        lemma_be_len(b / 256, m);
        let pa = be(a / 256, m);
        let pb = be(b / 256, m);
        lemma_lex_concat(pa, pb, seq![(a % 256) as u8], seq![(b % 256) as u8]);
        assert(be(a, n) == pa + seq![(a % 256) as u8]);
        assert(be(b, n) == pb + seq![(b % 256) as u8]);
        if pa == pb {
            lemma_be_val_be(a / 256, m);
            lemma_be_val_be(b / 256, m);
            let xa = seq![(a % 256) as u8];
            let xb = seq![(b % 256) as u8];
            assert(xa.drop_first() =~= Seq::<u8>::empty());
            assert(xb.drop_first() =~= Seq::<u8>::empty());
            assert(!lex_lt(xa.drop_first(), xb.drop_first()));
            assert(xa[0] == (a % 256) as u8 && xb[0] == (b % 256) as u8);
            assert(lex_lt(xa, xb) <==> a % 256 < b % 256);
        }
        assert((a < b) <==> (a / 256 < b / 256 || (a / 256 == b / 256 && a % 256 < b % 256)))
            by (nonlinear_arith)
            requires
                a == 256 * (a / 256) + a % 256,
                b == 256 * (b / 256) + b % 256,
                0 <= a % 256 < 256,
                0 <= b % 256 < 256,
        ;
    }
}

/// Complemented strings of equal length sort in reverse.
pub proof fn lemma_complement_order(a: Seq<u8>, b: Seq<u8>)
    requires
        a.len() == b.len(),
    ensures
        lex_lt(complement(a), complement(b)) <==> lex_lt(b, a),
    decreases a.len(),
{
    if a.len() > 0 {
        assert(complement(a).drop_first() =~= complement(a.drop_first()));
        assert(complement(b).drop_first() =~= complement(b.drop_first()));
        lemma_complement_order(a.drop_first(), b.drop_first());
    }
}

} // verus!
