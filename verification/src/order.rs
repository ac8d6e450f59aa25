//! Lexicographic order on byte sequences.
//!
//! Every key the store holds is compared byte for byte; the range scans, the
//! bound keys and the retention sweep all rest on this order.
use vstd::prelude::*;

verus! {

/// Strict lexicographic order: `a` comes before `b` when at the first
/// position where they differ `a` holds the smaller byte, or when `a` is a
/// proper prefix of `b`.
pub open spec fn lex_lt(a: Seq<u8>, b: Seq<u8>) -> bool
    decreases a.len(),
{
    if b.len() == 0 {
        false
    } else if a.len() == 0 {
        true
    } else if a[0] < b[0] {
        true
    } else if a[0] > b[0] {
        false
    } else {
        lex_lt(a.drop_first(), b.drop_first())
    }
}

/// Reflexive lexicographic order.
pub open spec fn lex_le(a: Seq<u8>, b: Seq<u8>) -> bool {
    lex_lt(a, b) || a == b
}

pub proof fn lemma_lex_irrefl(a: Seq<u8>)
    ensures
        !lex_lt(a, a),
    decreases a.len(),
{
    if a.len() > 0 {
        lemma_lex_irrefl(a.drop_first());
    }
}

pub proof fn lemma_lex_total(a: Seq<u8>, b: Seq<u8>)
    ensures
        lex_lt(a, b) || lex_lt(b, a) || a == b,
    decreases a.len(),
{
    if a.len() == 0 && b.len() == 0 {
        assert(a =~= b);
    } else if a.len() > 0 && b.len() > 0 && a[0] == b[0] {
        lemma_lex_total(a.drop_first(), b.drop_first());
        if a.drop_first() == b.drop_first() {
            assert(a =~= b) by {
                assert(a == seq![a[0]] + a.drop_first());
                assert(b == seq![b[0]] + b.drop_first());
            }
        }
    }
}

pub proof fn lemma_lex_asym(a: Seq<u8>, b: Seq<u8>)
    ensures
        lex_lt(a, b) ==> !lex_lt(b, a),
    decreases a.len(),
{
    if a.len() > 0 && b.len() > 0 && a[0] == b[0] {
        lemma_lex_asym(a.drop_first(), b.drop_first());
    }
}

pub proof fn lemma_lex_trans(a: Seq<u8>, b: Seq<u8>, c: Seq<u8>)
    ensures
        lex_lt(a, b) && lex_lt(b, c) ==> lex_lt(a, c),
    decreases a.len(),
{
    if a.len() > 0 && b.len() > 0 && c.len() > 0 {
        lemma_lex_trans(a.drop_first(), b.drop_first(), c.drop_first());
    }
}

/// Skipping a shared prefix does not change the order.
pub proof fn lemma_lex_skip(a: Seq<u8>, b: Seq<u8>, i: int)
    requires
        0 <= i <= a.len(),
        i <= b.len(),
        a.take(i) == b.take(i),
    ensures
        lex_lt(a, b) == lex_lt(a.skip(i), b.skip(i)),
    decreases i,
{
    if i == 0 {
        assert(a.skip(0) =~= a);
        assert(b.skip(0) =~= b);
    } else {
        assert(a.take(i)[0] == a[0]);
        assert(b.take(i)[0] == b[0]);
        assert(a.len() > 0 && b.len() > 0 && a[0] == b[0]);
        assert(a.drop_first().take(i - 1) =~= a.take(i).drop_first());
        assert(b.drop_first().take(i - 1) =~= b.take(i).drop_first());
        lemma_lex_skip(a.drop_first(), b.drop_first(), i - 1);
        assert(a.drop_first().skip(i - 1) =~= a.skip(i));
        assert(b.drop_first().skip(i - 1) =~= b.skip(i));
    }
}

/// A proper prefix comes strictly first.
pub proof fn lemma_lex_proper_prefix(a: Seq<u8>, b: Seq<u8>)
    requires
        a.len() < b.len(),
        a == b.take(a.len() as int),
    ensures
        lex_lt(a, b),
{
    assert(a.take(a.len() as int) =~= a);
    lemma_lex_skip(a, b, a.len() as int);
    assert(a.skip(a.len() as int) =~= Seq::<u8>::empty());
    assert(b.skip(a.len() as int).len() > 0);
}

/// Order between equal-length sequences is kept by any continuations.
pub proof fn lemma_lex_concat(a: Seq<u8>, b: Seq<u8>, s: Seq<u8>, t: Seq<u8>)
    requires
        a.len() == b.len(),
        lex_lt(a, b),
    ensures
        lex_lt(a + s, b + t),
    decreases a.len(),
{
    assert(a.len() > 0);
    assert((a + s).len() > 0 && (b + t).len() > 0);
    assert((a + s)[0] == a[0]);
    assert((b + t)[0] == b[0]);
    if a[0] == b[0] {
        lemma_lex_concat(a.drop_first(), b.drop_first(), s, t);
        assert((a + s).drop_first() =~= a.drop_first() + s);
        assert((b + t).drop_first() =~= b.drop_first() + t);
    }
}

/// Order decided at one byte right after a shared prefix.
pub proof fn lemma_lex_mid(p: Seq<u8>, c1: u8, c2: u8, x: Seq<u8>, y: Seq<u8>)
    requires
        c1 < c2,
    ensures
        lex_lt(p + seq![c1] + x, p + seq![c2] + y),
{
    assert(lex_lt(seq![c1], seq![c2]));
    if p.len() > 0 {
        assert((p + seq![c1]).take(p.len() as int) =~= p);
        assert((p + seq![c2]).take(p.len() as int) =~= p);
        lemma_lex_skip(p + seq![c1], p + seq![c2], p.len() as int);
        assert((p + seq![c1]).skip(p.len() as int) =~= seq![c1]);
        assert((p + seq![c2]).skip(p.len() as int) =~= seq![c2]);
    } else {
        assert(p + seq![c1] =~= seq![c1]);
        assert(p + seq![c2] =~= seq![c2]);
    }
    lemma_lex_concat(p + seq![c1], p + seq![c2], x, y);
}

/// A shared leading segment never decides the order.
pub proof fn lemma_lex_prepend(p: Seq<u8>, a: Seq<u8>, b: Seq<u8>)
    ensures
        lex_lt(p + a, p + b) == lex_lt(a, b),
{
    assert((p + a).take(p.len() as int) =~= p);
    assert((p + b).take(p.len() as int) =~= p);
    lemma_lex_skip(p + a, p + b, p.len() as int);
    assert((p + a).skip(p.len() as int) =~= a);
    assert((p + b).skip(p.len() as int) =~= b);
}

/// Compares two byte slices in lexicographic order.
pub fn lt_bytes(a: &[u8], b: &[u8]) -> (r: bool)
    ensures
        r == lex_lt(a@, b@),
{
    let n: usize = if a.len() < b.len() {
        a.len()
    } else {
        b.len()
    };
    let mut i: usize = 0;
    while i < n
        invariant
            i <= n,
            n <= a@.len(),
            n <= b@.len(),
            n == if a@.len() < b@.len() {
                a@.len() as int
            } else {
                b@.len() as int
            },
            a@.take(i as int) == b@.take(i as int),
        decreases n - i,
    {
        let ab = a[i];
        let bb = b[i];
        proof {
            lemma_lex_skip(a@, b@, i as int);
        }
        if ab < bb {
            return true;
        }
        if ab > bb {
            return false;
        }
        proof {
            assert(a@.take(i + 1) =~= a@.take(i as int).push(a@[i as int]));
            assert(b@.take(i + 1) =~= b@.take(i as int).push(b@[i as int]));
        }
        i += 1;
    }
    proof {
        lemma_lex_skip(a@, b@, n as int);
    }
    a.len() < b.len()
}

/// Reflexive comparison of two byte slices.
pub fn le_bytes(a: &[u8], b: &[u8]) -> (r: bool)
    ensures
        r == lex_le(a@, b@),
{
    proof {
        lemma_lex_total(a@, b@);
        lemma_lex_asym(a@, b@);
        lemma_lex_irrefl(a@);
    }
    !lt_bytes(b, a)
}

/// Whether `a` begins with the prefix `p`.
pub fn starts_with(a: &[u8], p: &[u8]) -> (r: bool)
    ensures
        r == p@.is_prefix_of(a@),
{
    if a.len() < p.len() {
        assert(!p@.is_prefix_of(a@));
        return false;
    }
    let mut i: usize = 0;
    while i < p.len()
        invariant
            i <= p@.len(),
            p@.len() <= a@.len(),
            a@.take(i as int) == p@.take(i as int),
        decreases p@.len() - i,
    {
        if a[i] != p[i] {
            assert(!p@.is_prefix_of(a@)) by {
                assert(p@[i as int] != a@[i as int]);
            }
            return false;
        }
        proof {
            assert(a@.take(i + 1) =~= a@.take(i as int).push(a@[i as int]));
            assert(p@.take(i + 1) =~= p@.take(i as int).push(p@[i as int]));
        }
        i += 1;
    }
    assert(p@.take(p@.len() as int) =~= p@);
    assert(p@.is_prefix_of(a@));
    true
}

/// Whether two byte slices hold the same bytes.
pub fn eq_bytes(a: &[u8], b: &[u8]) -> (r: bool)
    ensures
        r == (a@ == b@),
{
    if a.len() != b.len() {
        return false;
    }
    let p = starts_with(a, b);
    proof {
        if b@.is_prefix_of(a@) {
            assert(a@ =~= b@);
        }
    }
    p
}

} // verus!
