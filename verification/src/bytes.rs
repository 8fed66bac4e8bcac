//! Byte strings: lexicographic order and fixed-width big-endian numbers.

use vstd::prelude::*;

verus! {

/// First position at or after `i` where `a` and `b` differ or one of them ends.
pub open spec fn mismatch(a: Seq<u8>, b: Seq<u8>, i: int) -> int
    decreases a.len() - i,
{
    if i < 0 || i >= a.len() || i >= b.len() || a[i] != b[i] {
        i
    } else {
        mismatch(a, b, i + 1)
    }
}

/// `a` sorts strictly before `b` in lexicographic byte order.
pub open spec fn lex_lt(a: Seq<u8>, b: Seq<u8>) -> bool {
    let p = mismatch(a, b, 0);
    p < b.len() && (p == a.len() || a[p] < b[p])
}

/// `a` sorts before `b` or equals it.
pub open spec fn lex_le(a: Seq<u8>, b: Seq<u8>) -> bool {
    !lex_lt(b, a)
}

/// `p` is where `a` and `b` first part ways.
pub open spec fn is_split(a: Seq<u8>, b: Seq<u8>, p: int) -> bool {
    &&& 0 <= p <= a.len()
    &&& p <= b.len()
    &&& forall|j: int| 0 <= j < p ==> a[j] == b[j]
    &&& (p == a.len() || p == b.len() || a[p] != b[p])
}

pub proof fn lemma_mismatch_from(a: Seq<u8>, b: Seq<u8>, i: int, p: int)
    requires
        0 <= i <= p,
        is_split(a, b, p),
    ensures
        mismatch(a, b, i) == p,
    decreases p - i,
{
    if i < p {
        lemma_mismatch_from(a, b, i + 1, p);
    }
}

pub proof fn lemma_mismatch_is_split(a: Seq<u8>, b: Seq<u8>, i: int)
    requires
        0 <= i <= a.len(),
        i <= b.len(),
        forall|j: int| 0 <= j < i ==> a[j] == b[j],
    ensures
        is_split(a, b, mismatch(a, b, i)),
    decreases a.len() - i,
{
    if !(i >= a.len() || i >= b.len() || a[i] != b[i]) {
        lemma_mismatch_is_split(a, b, i + 1);
    }
}

/// The split position exists and is the only one.
pub proof fn lemma_split(a: Seq<u8>, b: Seq<u8>)
    ensures
        is_split(a, b, mismatch(a, b, 0)),
        forall|p: int| is_split(a, b, p) ==> p == mismatch(a, b, 0),
{
    lemma_mismatch_is_split(a, b, 0);
    assert forall|p: int| is_split(a, b, p) implies p == mismatch(a, b, 0) by {
        lemma_mismatch_from(a, b, 0, p);
    }
}

/// No byte string sorts before itself.
pub proof fn lemma_lex_irreflexive(a: Seq<u8>)
    ensures
        !lex_lt(a, a),
{
    lemma_split(a, a);
    assert(is_split(a, a, a.len() as int));
}

/// Lexicographic order is transitive.
pub proof fn lemma_lex_transitive(a: Seq<u8>, b: Seq<u8>, c: Seq<u8>)
    requires
        lex_lt(a, b),
        lex_lt(b, c),
    ensures
        lex_lt(a, c),
{
    lemma_split(a, b);
    lemma_split(b, c);
    lemma_split(a, c);
    let p = mismatch(a, b, 0);
    let q = mismatch(b, c, 0);
    let r = if p <= q { p } else { q };
    assert(is_split(a, c, r));
}

/// Two byte strings of which neither sorts before the other are equal.
pub proof fn lemma_lex_total(a: Seq<u8>, b: Seq<u8>)
    ensures
        lex_lt(a, b) || lex_lt(b, a) || a == b,
{
    lemma_split(a, b);
    lemma_split(b, a);
    let p = mismatch(a, b, 0);
    assert(is_split(b, a, p));
    if !lex_lt(a, b) && !lex_lt(b, a) {
        assert(a =~= b);
    }
}

/// Order and equality are exclusive.
pub proof fn lemma_lex_asymmetric(a: Seq<u8>, b: Seq<u8>)
    requires
        lex_lt(a, b),
    ensures
        !lex_lt(b, a),
        a != b,
{
    lemma_split(a, b);
    lemma_split(b, a);
    let p = mismatch(a, b, 0);
    assert(is_split(b, a, p));
    lemma_lex_irreflexive(a);
}

/// Tells whether two byte strings hold the same bytes.
pub fn bytes_eq(a: &[u8], b: &[u8]) -> (r: bool)
    ensures
        r == (a@ == b@),
{
    if a.len() != b.len() {
        return false;
    }
    let mut i: usize = 0;
    while i < a.len()
        invariant
            a.len() == b.len(),
            i <= a.len(),
            forall|j: int| 0 <= j < i ==> a@[j] == b@[j],
        decreases a.len() - i,
    {
        if a[i] != b[i] {
            return false;
        }
        i += 1;
    }
    assert(a@ =~= b@);
    true
}

/// Tells whether `a` sorts strictly before `b`.
pub fn lex_less(a: &[u8], b: &[u8]) -> (r: bool)
    ensures
        r == lex_lt(a@, b@),
{
    let mut i: usize = 0;
    while i < a.len() && i < b.len() && a[i] == b[i]
        invariant
            i <= a.len(),
            i <= b.len(),
            forall|j: int| 0 <= j < i ==> a@[j] == b@[j],
        decreases a.len() - i,
    {
        i += 1;
    }
    proof {
        assert(is_split(a@, b@, i as int));
        lemma_split(a@, b@);
    }
    i < b.len() && (i == a.len() || a[i] < b[i])
}

/// Copies a byte string into a vector of its own.
pub fn bytes_to_vec(a: &[u8]) -> (r: Vec<u8>)
    ensures
        r@ == a@,
{
    let mut r: Vec<u8> = Vec::new();
    let mut i: usize = 0;
    while i < a.len()
        invariant
            i <= a.len(),
            r@ == a@.subrange(0, i as int),
        decreases a.len() - i,
    {
        r.push(a[i]);
        i += 1;
        assert(r@ =~= a@.subrange(0, i as int));
    }
    assert(a@.subrange(0, a.len() as int) =~= a@);
    r
}

} // verus!
