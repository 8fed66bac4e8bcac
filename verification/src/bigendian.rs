//! Fixed-width big-endian numbers, whose byte order is their numeric order.

use vstd::prelude::*;
use crate::bytes::{is_split, lemma_lex_irreflexive, lemma_split, lex_lt, mismatch};

verus! {

/// 256 to the power `n`.
pub open spec fn pow256(n: nat) -> nat
    decreases n,
{
    if n == 0 {
        1
    } else {
        256 * pow256((n - 1) as nat)
    }
}

/// The `n` low bytes of `x`, most significant first.
pub open spec fn be(x: nat, n: nat) -> Seq<u8>
    decreases n,
{
    if n == 0 {
        Seq::<u8>::empty()
    } else {
        be(x / 256, (n - 1) as nat).push((x % 256) as u8)
    }
}

/// The number that a big-endian byte string spells.
pub open spec fn be_value(s: Seq<u8>) -> nat
    decreases s.len(),
{
    if s.len() == 0 {
        0
    } else {
        be_value(s.drop_last()) * 256 + s.last() as nat
    }
}

/// Every byte inverted.
pub open spec fn complement(s: Seq<u8>) -> Seq<u8> {
    Seq::new(s.len(), |i: int| (255 - s[i]) as u8)
}

pub proof fn lemma_pow256_positive(n: nat)
    ensures
        pow256(n) > 0,
    decreases n,
{
    if n > 0 {
        lemma_pow256_positive((n - 1) as nat);
    }
}

pub proof fn lemma_pow256_monotonic(m: nat, n: nat)
    requires
        m <= n,
    ensures
        pow256(m) <= pow256(n),
    decreases n - m,
{
    if m < n {
        lemma_pow256_monotonic(m + 1, n);
        lemma_pow256_positive(m);
    }
}

pub proof fn lemma_pow256_8()
    ensures
        pow256(8) == 0x1_0000_0000_0000_0000,
{
    reveal_with_fuel(pow256, 9);
}

pub proof fn lemma_pow256_16()
    ensures
        pow256(16) == 0x1_0000_0000_0000_0000_0000_0000_0000_0000,
{
    lemma_pow256_8();
    reveal_with_fuel(pow256, 9);
    assert(pow256(16) == 0x1_0000_0000_0000_0000 * pow256(8));
}

pub proof fn lemma_be_len(x: nat, n: nat)
    ensures
        be(x, n).len() == n,
    decreases n,
{
    if n > 0 {
        lemma_be_len(x / 256, (n - 1) as nat);
    }
}

pub proof fn lemma_be_value_bound(s: Seq<u8>)
    ensures
        be_value(s) < pow256(s.len()),
    decreases s.len(),
{
    if s.len() > 0 {
        lemma_be_value_bound(s.drop_last());
    }
}

/// Decoding what was encoded gives the number back.
pub proof fn lemma_be_value_of_be(x: nat, n: nat)
    requires
        x < pow256(n),
    ensures
        be_value(be(x, n)) == x,
    decreases n,
{
    lemma_be_len(x, n);
    if n > 0 {
        let m = (n - 1) as nat;
        lemma_be_value_of_be(x / 256, m);
        assert(be(x, n).drop_last() =~= be(x / 256, m));
    }
}

/// Encoding what was decoded gives the bytes back.
pub proof fn lemma_be_of_be_value(s: Seq<u8>)
    ensures
        be(be_value(s), s.len()) == s,
    decreases s.len(),
{
    if s.len() > 0 {
        lemma_be_of_be_value(s.drop_last());
        let v = be_value(s);
        assert(v / 256 == be_value(s.drop_last()));
        assert(v % 256 == s.last() as nat);
        assert(be(v, s.len()) =~= s);
    } else {
        assert(be(be_value(s), s.len()) =~= s);
    }
}

/// Appending one byte to two strings of equal length orders them by the
/// strings first and by the byte second.
pub proof fn lemma_lex_push(p: Seq<u8>, q: Seq<u8>, a: u8, b: u8)
    requires
        p.len() == q.len(),
    ensures
        lex_lt(p.push(a), q.push(b)) <==> (lex_lt(p, q) || (p == q && a < b)),
{
    lemma_split(p, q);
    lemma_split(p.push(a), q.push(b));
    let m = mismatch(p, q, 0);
    let n = p.len() as int;
    if m < n {
        assert(is_split(p.push(a), q.push(b), m));
        lemma_lex_asymmetric_or_equal(p, q);
    } else {
        assert(p =~= q);
        lemma_lex_irreflexive(p);
        if a == b {
            assert(is_split(p.push(a), q.push(b), n + 1));
        } else {
            assert(is_split(p.push(a), q.push(b), n));
        }
    }
}

/// Strings that part ways before either ends are not equal.
pub proof fn lemma_lex_asymmetric_or_equal(p: Seq<u8>, q: Seq<u8>)
    requires
        mismatch(p, q, 0) < p.len(),
        mismatch(p, q, 0) < q.len(),
    ensures
        p != q,
{
    lemma_split(p, q);
}

/// Big-endian byte order is numeric order.
pub proof fn lemma_be_order(x: nat, y: nat, n: nat)
    requires
        x < pow256(n),
        y < pow256(n),
    ensures
        lex_lt(be(x, n), be(y, n)) <==> x < y,
        be(x, n) == be(y, n) <==> x == y,
    decreases n,
{
    if n == 0 {
        lemma_lex_irreflexive(be(x, n));
    } else {
        let m = (n - 1) as nat;
        lemma_be_order(x / 256, y / 256, m);
        lemma_be_len(x / 256, m);
        lemma_be_len(y / 256, m);
        lemma_lex_push(be(x / 256, m), be(y / 256, m), (x % 256) as u8, (y % 256) as u8);
        lemma_be_value_of_be(x, n);
        lemma_be_value_of_be(y, n);
    }
}

/// Inverting every byte of two strings of equal length reverses their order.
pub proof fn lemma_complement_reverses(a: Seq<u8>, b: Seq<u8>)
    requires
        a.len() == b.len(),
    ensures
        lex_lt(complement(a), complement(b)) <==> lex_lt(b, a),
{
    lemma_split(a, b);
    lemma_split(b, a);
    lemma_split(complement(a), complement(b));
    let p = mismatch(a, b, 0);
    assert(is_split(b, a, p));
    assert(is_split(complement(a), complement(b), p));
}

/// Inverting every byte twice gives the string back.
pub proof fn lemma_complement_involution(a: Seq<u8>)
    ensures
        complement(complement(a)) == a,
{
    assert(complement(complement(a)) =~= a);
}

/// Writes the `n` low bytes of `x`, most significant first.
pub fn encode_be(x: u128, n: usize) -> (r: Vec<u8>)
    requires
        n <= 16,
    ensures
        r@ == be(x as nat, n as nat),
{
    let mut r: Vec<u8> = Vec::new();
    let mut k: usize = 0;
    while k < n
        invariant
            k <= n,
            r@.len() == k,
        decreases n - k,
    {
        r.push(0u8);
        k += 1;
    }
    let mut rest: u128 = x;
    let mut m: usize = n;
    while m > 0
        invariant
            m <= n,
            r@.len() == n,
            be(x as nat, n as nat) == be(rest as nat, m as nat) + r@.subrange(m as int, n as int),
        decreases m,
    {
        let ghost before = r@;
        let low: u8 = (rest % 256) as u8;
        m -= 1;
        r.set(m, low);
        proof {
            lemma_be_len((rest / 256) as nat, m as nat);
            assert(be(rest as nat, (m + 1) as nat) == be((rest / 256) as nat, m as nat).push(low));
            assert(r@.subrange(m as int, n as int) =~= seq![low] + before.subrange(
                m + 1,
                n as int,
            ));
            assert(be((rest / 256) as nat, m as nat).push(low) + before.subrange(m + 1, n as int)
                =~= be((rest / 256) as nat, m as nat) + r@.subrange(m as int, n as int));
        }
        rest = rest / 256;
    }
    proof {
        assert(be(rest as nat, 0) + r@.subrange(0, n as int) =~= r@);
    }
    r
}

/// Reads a big-endian number of at most sixteen bytes.
pub fn decode_be(b: &[u8]) -> (r: u128)
    requires
        b@.len() <= 16,
    ensures
        r == be_value(b@),
{
    let mut acc: u128 = 0;
    let mut i: usize = 0;
    while i < b.len()
        invariant
            i <= b@.len() <= 16,
            acc == be_value(b@.subrange(0, i as int)),
        decreases b@.len() - i,
    {
        proof {
            let s = b@.subrange(0, i + 1);
            assert(s.drop_last() =~= b@.subrange(0, i as int));
            lemma_be_value_bound(s);
            lemma_pow256_monotonic((i + 1) as nat, 16);
            lemma_pow256_16();
        }
        acc = acc * 256 + b[i] as u128;
        i += 1;
    }
    assert(b@.subrange(0, i as int) =~= b@);
    acc
}

/// Inverts every byte.
pub fn complement_bytes(b: &[u8]) -> (r: Vec<u8>)
    ensures
        r@ == complement(b@),
{
    let mut r: Vec<u8> = Vec::new();
    let mut i: usize = 0;
    while i < b.len()
        invariant
            i <= b@.len(),
            r@.len() == i,
            forall|j: int| 0 <= j < i ==> r@[j] == (255 - b@[j]) as u8,
        decreases b@.len() - i,
    {
        r.push(255 - b[i]);
        i += 1;
    }
    assert(r@ =~= complement(b@));
    r
}

} // verus!
