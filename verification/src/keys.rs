//! The compound-key codec.
//!
//! Every stored key is a run of length-free byte segments separated by a
//! single NUL; the final segment is an 8-byte big-endian nanosecond timestamp,
//! so that within a fixed prefix lexicographic order equals chronological
//! order.
use vstd::arithmetic::div_mod::{lemma_div_is_ordered, lemma_fundamental_div_mod};
use vstd::prelude::*;
use vstd::string::StringSliceAdditionalSpecFns;

use crate::order::{lemma_lex_concat, lemma_lex_mid, lemma_lex_prepend, lemma_lex_proper_prefix, lex_lt};

verus! {

pub open spec fn pow256(k: nat) -> nat
    decreases k,
{
    if k == 0 {
        1
    } else {
        256 * pow256((k - 1) as nat)
    }
}

/// The `k` big-endian base-256 digits of `n`.
pub open spec fn be_bytes(n: nat, k: nat) -> Seq<u8>
    decreases k,
{
    if k == 0 {
        Seq::empty()
    } else {
        be_bytes(n / 256, (k - 1) as nat).push((n % 256) as u8)
    }
}

/// The 8 bytes a signed 64-bit timestamp is stored as: its two's-complement
/// value in big-endian order.
pub open spec fn ts_bytes(t: i64) -> Seq<u8> {
    be_bytes(t as u64 as nat, 8)
}

/// The number a big-endian byte run denotes.
pub open spec fn from_be(s: Seq<u8>) -> nat
    decreases s.len(),
{
    if s.len() == 0 {
        0
    } else {
        from_be(s.drop_last()) * 256 + s.last() as nat
    }
}

pub proof fn lemma_be_bytes_len(n: nat, k: nat)
    ensures
        be_bytes(n, k).len() == k,
    decreases k,
{
    if k > 0 {
        lemma_be_bytes_len(n / 256, (k - 1) as nat);
    }
}

/// Within a fixed width, numeric order is lexicographic order.
pub proof fn lemma_be_bytes_order(n1: nat, n2: nat, k: nat)
    requires
        n1 < n2,
        n2 < pow256(k),
    ensures
        lex_lt(be_bytes(n1, k), be_bytes(n2, k)),
    decreases k,
{
    assert(k > 0);
    let q1 = n1 / 256;
    let q2 = n2 / 256;
    lemma_div_is_ordered(n1 as int, n2 as int, 256);
    lemma_fundamental_div_mod(n1 as int, 256);
    lemma_fundamental_div_mod(n2 as int, 256);
    if q2 >= pow256((k - 1) as nat) {
        assert(256 * q2 >= 256 * pow256((k - 1) as nat)) by (nonlinear_arith)
            requires
                q2 >= pow256((k - 1) as nat),
        ;
        assert(false);
    }
    lemma_be_bytes_len(q1, (k - 1) as nat);
    lemma_be_bytes_len(q2, (k - 1) as nat);
    if q1 < q2 {
        lemma_be_bytes_order(q1, q2, (k - 1) as nat);
        lemma_lex_concat(
            be_bytes(q1, (k - 1) as nat),
            be_bytes(q2, (k - 1) as nat),
            seq![(n1 % 256) as u8],
            seq![(n2 % 256) as u8],
        );
        assert(be_bytes(q1, (k - 1) as nat) + seq![(n1 % 256) as u8] =~= be_bytes(n1, k));
        assert(be_bytes(q2, (k - 1) as nat) + seq![(n2 % 256) as u8] =~= be_bytes(n2, k));
    } else {
        assert(q1 == q2);
        assert(n1 % 256 < n2 % 256);
        lemma_lex_mid(
            be_bytes(q1, (k - 1) as nat),
            (n1 % 256) as u8,
            (n2 % 256) as u8,
            Seq::empty(),
            Seq::empty(),
        );
        assert(be_bytes(q1, (k - 1) as nat) + seq![(n1 % 256) as u8] + Seq::<u8>::empty()
            =~= be_bytes(n1, k));
        assert(be_bytes(q2, (k - 1) as nat) + seq![(n2 % 256) as u8] + Seq::<u8>::empty()
            =~= be_bytes(n2, k));
    }
}

/// Chronological order of non-negative timestamps is lexicographic order of
/// their stored bytes.
pub proof fn lemma_ts_bytes_order(t1: i64, t2: i64)
    requires
        0 <= t1 < t2,
    ensures
        lex_lt(ts_bytes(t1), ts_bytes(t2)),
{
    assert((t1 as u64) < (t2 as u64)) by (bit_vector)
        requires
            0 <= t1 < t2,
    ;
    lemma_pow256_8();
    lemma_be_bytes_order(t1 as u64 as nat, t2 as u64 as nat, 8);
}

pub proof fn lemma_from_be_bound(s: Seq<u8>)
    ensures
        from_be(s) < pow256(s.len()),
    decreases s.len(),
{
    if s.len() > 0 {
        lemma_from_be_bound(s.drop_last());
        assert(from_be(s.drop_last()) * 256 + 255 < pow256(s.len())) by (nonlinear_arith)
            requires
                from_be(s.drop_last()) < pow256((s.len() - 1) as nat),
                pow256(s.len()) == 256 * pow256((s.len() - 1) as nat),
        ;
    }
}

/// Decoding inverts encoding.
pub proof fn lemma_from_be_bytes(n: nat, k: nat)
    requires
        n < pow256(k),
    ensures
        from_be(be_bytes(n, k)) == n,
    decreases k,
{
    if k == 0 {
    } else {
        let q = n / 256;
        lemma_fundamental_div_mod(n as int, 256);
        if q >= pow256((k - 1) as nat) {
            assert(256 * q >= 256 * pow256((k - 1) as nat)) by (nonlinear_arith)
                requires
                    q >= pow256((k - 1) as nat),
            ;
            assert(false);
        }
        lemma_from_be_bytes(q, (k - 1) as nat);
        lemma_be_bytes_len(q, (k - 1) as nat);
        assert(be_bytes(n, k).drop_last() =~= be_bytes(q, (k - 1) as nat));
        assert(be_bytes(n, k).last() == (n % 256) as u8);
    }
}

/// Encoding inverts decoding, for a run of the right width.
pub proof fn lemma_be_bytes_from_be(s: Seq<u8>, k: nat)
    requires
        s.len() == k,
    ensures
        be_bytes(from_be(s), k) == s,
    decreases k,
{
    if k > 0 {
        let n = from_be(s);
        let h = from_be(s.drop_last());
        assert(n == h * 256 + s.last());
        assert(n / 256 == h && n % 256 == s.last()) by (nonlinear_arith)
            requires
                n == h * 256 + s.last(),
                0 <= s.last() < 256,
        ;
        lemma_be_bytes_from_be(s.drop_last(), (k - 1) as nat);
        assert(be_bytes(n, k) =~= s);
    }
}

/// Writes a timestamp as the 8 trailing key bytes.
pub fn to_be8(t: i64) -> (r: Vec<u8>)
    ensures
        r@ == ts_bytes(t),
        r@.len() == 8,
{
    let u = t as u64;
    let q1 = u / 256;
    let q2 = q1 / 256;
    let q3 = q2 / 256;
    let q4 = q3 / 256;
    let q5 = q4 / 256;
    let q6 = q5 / 256;
    let q7 = q6 / 256;
    let mut r: Vec<u8> = Vec::new();
    r.push((q7 % 256) as u8);
    r.push((q6 % 256) as u8);
    r.push((q5 % 256) as u8);
    r.push((q4 % 256) as u8);
    r.push((q3 % 256) as u8);
    r.push((q2 % 256) as u8);
    r.push((q1 % 256) as u8);
    r.push((u % 256) as u8);
    proof {
        assert(q7 / 256 == 0) by (bit_vector)
            requires
                q7 == u / 256 / 256 / 256 / 256 / 256 / 256 / 256,
        ;
        assert(be_bytes(q7 as nat / 256, 0) =~= Seq::<u8>::empty());
        assert(be_bytes(q7 as nat, 1) =~= seq![(q7 % 256) as u8]);
        assert(be_bytes(q6 as nat, 2) =~= be_bytes(q7 as nat, 1).push((q6 % 256) as u8));
        assert(be_bytes(q5 as nat, 3) =~= be_bytes(q6 as nat, 2).push((q5 % 256) as u8));
        assert(be_bytes(q4 as nat, 4) =~= be_bytes(q5 as nat, 3).push((q4 % 256) as u8));
        assert(be_bytes(q3 as nat, 5) =~= be_bytes(q4 as nat, 4).push((q3 % 256) as u8));
        assert(be_bytes(q2 as nat, 6) =~= be_bytes(q3 as nat, 5).push((q2 % 256) as u8));
        assert(be_bytes(q1 as nat, 7) =~= be_bytes(q2 as nat, 6).push((q1 % 256) as u8));
        assert(be_bytes(u as nat, 8) =~= be_bytes(q1 as nat, 7).push((u % 256) as u8));
        assert(r@ =~= be_bytes(u as nat, 8));
    }
    r
}

/// Writes a 32-bit core identifier as the 4 middle key bytes.
pub fn to_be4(c: u32) -> (r: Vec<u8>)
    ensures
        r@ == be_bytes(c as nat, 4),
        r@.len() == 4,
{
    let q1 = c / 256;
    let q2 = q1 / 256;
    let q3 = q2 / 256;
    let mut r: Vec<u8> = Vec::new();
    r.push((q3 % 256) as u8);
    r.push((q2 % 256) as u8);
    r.push((q1 % 256) as u8);
    r.push((c % 256) as u8);
    proof {
        assert(q3 / 256 == 0) by (bit_vector)
            requires
                q3 == c / 256 / 256 / 256,
        ;
        assert(be_bytes(q3 as nat / 256, 0) =~= Seq::<u8>::empty());
        assert(be_bytes(q3 as nat, 1) =~= seq![(q3 % 256) as u8]);
        assert(be_bytes(q2 as nat, 2) =~= be_bytes(q3 as nat, 1).push((q2 % 256) as u8));
        assert(be_bytes(q1 as nat, 3) =~= be_bytes(q2 as nat, 2).push((q1 % 256) as u8));
        assert(be_bytes(c as nat, 4) =~= be_bytes(q1 as nat, 3).push((c % 256) as u8));
        assert(r@ =~= be_bytes(c as nat, 4));
    }
    r
}

/// Reads the timestamp stored in the 8 trailing bytes of a key.
pub fn from_be8(b: &[u8], start: usize) -> (r: i64)
    requires
        start + 8 == b@.len(),
    ensures
        ts_bytes(r) == b@.skip(start as int),
{
    let mut acc: u64 = 0;
    let mut i: usize = start;
    while i < b.len()
        invariant
            start <= i <= b@.len(),
            start + 8 == b@.len(),
            acc as nat == from_be(b@.subrange(start as int, i as int)),
            (acc as nat) < pow256((i - start) as nat),
        decreases b@.len() - i,
    {
        proof {
            lemma_pow256_8();
            assert(pow256((i - start) as nat) <= pow256(7)) by {
                lemma_pow256_le((i - start) as nat, 7);
            }
            assert(acc * 256 + 255 < 0x1_0000_0000_0000_0000) by (nonlinear_arith)
                requires
                    (acc as nat) < pow256(7),
                    pow256(7) == 0x100_0000_0000_0000,
            ;
        }
        let next = acc * 256 + (b[i] as u64);
        proof {
            let sub1 = b@.subrange(start as int, i + 1);
            assert(sub1.drop_last() =~= b@.subrange(start as int, i as int));
            assert(sub1.last() == b@[i as int]);
        }
        acc = next;
        i += 1;
        proof {
            assert((acc as nat) < pow256((i - start) as nat)) by {
                lemma_from_be_bound(b@.subrange(start as int, i as int));
                lemma_be_bytes_len(0, (i - start) as nat);
                assert(b@.subrange(start as int, i as int).len() == i - start);
            }
        }
    }
    let r = acc as i64;
    proof {
        assert(b@.subrange(start as int, b@.len() as int) =~= b@.skip(start as int));
        lemma_be_bytes_from_be(b@.skip(start as int), 8);
        assert((acc as i64) as u64 == acc) by (bit_vector);
    }
    r
}

pub proof fn lemma_pow256_8()
    ensures
        pow256(7) == 0x100_0000_0000_0000,
        pow256(8) == 0x1_0000_0000_0000_0000,
{
    assert(pow256(0) == 1);
    assert(pow256(1) == 256);
    assert(pow256(2) == 0x1_0000);
    assert(pow256(3) == 0x100_0000);
    assert(pow256(4) == 0x1_0000_0000);
    assert(pow256(5) == 0x100_0000_0000);
    assert(pow256(6) == 0x1_0000_0000_0000);
    assert(pow256(7) == 0x100_0000_0000_0000);
    assert(pow256(8) == 0x1_0000_0000_0000_0000);
}

/// The key a range scan starts from: the prefix, the NUL separator, and —
/// when an instant is given — the nanosecond before it, so that every key of
/// the prefix at that instant or later lies at or above it.
pub open spec fn lower_bound_spec(prefix: Seq<u8>, time: Option<i64>) -> Seq<u8> {
    match time {
        Some(t) => if t >= 1 {
            prefix + seq![0u8] + ts_bytes((t - 1) as i64)
        } else {
            prefix + seq![0u8]
        },
        None => prefix + seq![0u8],
    }
}

/// The key a range scan stops before: the prefix and the given instant, or —
/// with no instant — the prefix followed by a `0x01` sentinel, which
/// lexicographically exceeds every NUL-continued key of the prefix.
pub open spec fn upper_bound_spec(prefix: Seq<u8>, time: Option<i64>) -> Seq<u8> {
    match time {
        Some(t) => prefix + seq![0u8] + ts_bytes(t),
        None => prefix + seq![1u8],
    }
}

/// Creates a key that precedes every key composed from the given `prefix` and
/// an instant at or after `time`.
pub fn lower_bound_key(prefix: &[u8], time: Option<i64>) -> (r: Vec<u8>)
    ensures
        r@ == lower_bound_spec(prefix@, time),
{
    let mut r = vstd::slice::slice_to_vec(prefix);
    r.push(0u8);
    if let Some(t) = time {
        if t >= 1 {
            let mut ts = to_be8(t - 1);
            r.append(&mut ts);
            assert(r@ =~= prefix@ + seq![0u8] + ts_bytes((t - 1) as i64));
        } else {
            assert(r@ =~= prefix@ + seq![0u8]);
        }
    } else {
        assert(r@ =~= prefix@ + seq![0u8]);
    }
    r
}

/// Creates the first key past every key composed from the given `prefix` and
/// an instant before `time`; with no instant, past every key of the prefix.
pub fn upper_bound_key(prefix: &[u8], time: Option<i64>) -> (r: Vec<u8>)
    ensures
        r@ == upper_bound_spec(prefix@, time),
{
    let mut r = vstd::slice::slice_to_vec(prefix);
    if let Some(t) = time {
        r.push(0u8);
        let mut ts = to_be8(t);
        r.append(&mut ts);
        assert(r@ =~= prefix@ + seq![0u8] + ts_bytes(t));
    } else {
        r.push(1u8);
        assert(r@ =~= prefix@ + seq![1u8]);
    }
    r
}

/// With no instant given, the upper bound lexicographically exceeds every key
/// of the form `prefix NUL …`.
pub proof fn lemma_upper_bound_no_time_exceeds(prefix: Seq<u8>, rest: Seq<u8>)
    ensures
        lex_lt(prefix + seq![0u8] + rest, upper_bound_spec(prefix, None)),
{
    lemma_lex_mid(prefix, 0u8, 1u8, rest, Seq::empty());
    assert(prefix + seq![1u8] + Seq::<u8>::empty() =~= prefix + seq![1u8]);
}

/// The lower bound for instant `t` precedes every key of the form
/// `prefix NUL ts_bytes(t) …`.
pub proof fn lemma_lower_bound_precedes(prefix: Seq<u8>, t: i64, rest: Seq<u8>)
    requires
        0 <= t,
    ensures
        lex_lt(lower_bound_spec(prefix, Some(t)), prefix + seq![0u8] + ts_bytes(t) + rest),
{
    lemma_be_bytes_len(t as u64 as nat, 8);
    if t >= 1 {
        lemma_be_bytes_len((t - 1) as i64 as u64 as nat, 8);
        lemma_ts_bytes_order((t - 1) as i64, t);
        lemma_lex_concat(ts_bytes((t - 1) as i64), ts_bytes(t), Seq::empty(), rest);
        lemma_lex_prepend(
            prefix + seq![0u8],
            ts_bytes((t - 1) as i64) + Seq::empty(),
            ts_bytes(t) + rest,
        );
        assert(ts_bytes((t - 1) as i64) + Seq::<u8>::empty() =~= ts_bytes((t - 1) as i64));
        assert((prefix + seq![0u8]) + ts_bytes((t - 1) as i64) =~= lower_bound_spec(
            prefix,
            Some(t),
        ));
        assert((prefix + seq![0u8]) + (ts_bytes(t) + rest) =~= prefix + seq![0u8] + ts_bytes(t)
            + rest);
    } else {
        let whole = prefix + seq![0u8] + ts_bytes(t) + rest;
        assert(lower_bound_spec(prefix, Some(t)) =~= whole.take((prefix.len() + 1) as int));
        lemma_lex_proper_prefix(lower_bound_spec(prefix, Some(t)), whole);
    }
}

/// The lower bound for instant `t` succeeds every key of the form
/// `prefix NUL ts_bytes(t') …` whenever `t' + 1 < t`; at `t' == t - 1` the
/// bound itself is such a key, so those keys are the scan's first candidates.
pub proof fn lemma_lower_bound_succeeds(prefix: Seq<u8>, t: i64, tp: i64, rest: Seq<u8>)
    requires
        0 <= tp,
        tp + 1 < t,
    ensures
        lex_lt(prefix + seq![0u8] + ts_bytes(tp) + rest, lower_bound_spec(prefix, Some(t))),
{
    lemma_be_bytes_len(tp as u64 as nat, 8);
    lemma_be_bytes_len((t - 1) as i64 as u64 as nat, 8);
    lemma_ts_bytes_order(tp, (t - 1) as i64);
    lemma_lex_concat(ts_bytes(tp), ts_bytes((t - 1) as i64), rest, Seq::empty());
    lemma_lex_prepend(
        prefix + seq![0u8],
        ts_bytes(tp) + rest,
        ts_bytes((t - 1) as i64) + Seq::empty(),
    );
    assert((prefix + seq![0u8]) + (ts_bytes(tp) + rest) =~= prefix + seq![0u8] + ts_bytes(tp)
        + rest);
    assert((prefix + seq![0u8]) + (ts_bytes((t - 1) as i64) + Seq::<u8>::empty())
        =~= lower_bound_spec(prefix, Some(t)));
}

/// The upper bound for instant `t` exceeds every key of the form
/// `prefix NUL ts_bytes(t') …` with `t' < t`, and lies at or below every such
/// key with `t' >= t`: it cuts the key space exactly at `t`.
pub proof fn lemma_upper_bound_time_cuts(prefix: Seq<u8>, t: i64, tp: i64, rest: Seq<u8>)
    requires
        0 <= tp,
        0 <= t,
    ensures
        tp < t ==> lex_lt(prefix + seq![0u8] + ts_bytes(tp) + rest, upper_bound_spec(
            prefix,
            Some(t),
        )),
        tp >= t ==> crate::order::lex_le(upper_bound_spec(prefix, Some(t)), prefix + seq![0u8]
            + ts_bytes(tp) + rest),
{
    lemma_be_bytes_len(tp as u64 as nat, 8);
    lemma_be_bytes_len(t as u64 as nat, 8);
    if tp < t {
        lemma_ts_bytes_order(tp, t);
        lemma_lex_concat(ts_bytes(tp), ts_bytes(t), rest, Seq::empty());
        lemma_lex_prepend(prefix + seq![0u8], ts_bytes(tp) + rest, ts_bytes(t) + Seq::empty());
        assert((prefix + seq![0u8]) + (ts_bytes(tp) + rest) =~= prefix + seq![0u8] + ts_bytes(tp)
            + rest);
        assert((prefix + seq![0u8]) + (ts_bytes(t) + Seq::<u8>::empty()) =~= upper_bound_spec(
            prefix,
            Some(t),
        ));
    } else if tp == t {
        let whole = prefix + seq![0u8] + ts_bytes(tp) + rest;
        assert(upper_bound_spec(prefix, Some(t)) =~= whole.take(
            (prefix.len() + 1 + 8) as int,
        ));
        if rest.len() == 0 {
            assert(upper_bound_spec(prefix, Some(t)) =~= whole);
        } else {
            lemma_lex_proper_prefix(upper_bound_spec(prefix, Some(t)), whole);
        }
    } else {
        lemma_ts_bytes_order(t, tp);
        lemma_lex_concat(ts_bytes(t), ts_bytes(tp), Seq::empty(), rest);
        lemma_lex_prepend(prefix + seq![0u8], ts_bytes(t) + Seq::empty(), ts_bytes(tp) + rest);
        assert((prefix + seq![0u8]) + (ts_bytes(tp) + rest) =~= prefix + seq![0u8] + ts_bytes(tp)
            + rest);
        assert((prefix + seq![0u8]) + (ts_bytes(t) + Seq::<u8>::empty()) =~= upper_bound_spec(
            prefix,
            Some(t),
        ));
    }
}

/// A compound store key, assembled stage by stage: a leading segment, an
/// optional middle segment, and a trailing timestamp or range bound, each
/// introduced by a NUL separator.
pub struct StorageKey {
    key: Vec<u8>,
}

impl StorageKey {
    pub closed spec fn view(&self) -> Seq<u8> {
        self.key@
    }

    pub fn builder() -> (b: StorageKeyBuilder)
        ensures
            b@ == Seq::<u8>::empty(),
    {
        StorageKeyBuilder { pre: Vec::new() }
    }

    /// Hands out the assembled key bytes.
    pub fn key(self) -> (r: Vec<u8>)
        ensures
            r@ == self@,
    {
        self.key
    }
}

/// The staged composer behind [`StorageKey`].
pub struct StorageKeyBuilder {
    pre: Vec<u8>,
}

impl StorageKeyBuilder {
    pub closed spec fn view(&self) -> Seq<u8> {
        self.pre@
    }

    /// Appends the leading segment, the sensor identifier or its stand-in.
    pub fn start_key(self, key: &str) -> (r: Self)
        ensures
            r@ == self@ + key.spec_bytes(),
    {
        let mut pre = self.pre;
        let mut b = vstd::slice::slice_to_vec(key.as_bytes());
        pre.append(&mut b);
        StorageKeyBuilder { pre }
    }

    /// Appends the optional middle segment behind a NUL separator.
    pub fn mid_key(self, key: Option<Vec<u8>>) -> (r: Self)
        ensures
            r@ == match key {
                Some(m) => self@ + seq![0u8] + m@,
                None => self@,
            },
    {
        let mut pre = self.pre;
        if let Some(m) = key {
            pre.push(0u8);
            let ghost m0 = m@;
            let mut m = m;
            pre.append(&mut m);
            assert(pre@ =~= self@ + seq![0u8] + m0);
        }
        StorageKeyBuilder { pre }
    }

    /// Closes the key with the record's timestamp behind a NUL separator.
    pub fn end_key(self, timestamp: i64) -> (r: Self)
        ensures
            r@ == self@ + seq![0u8] + ts_bytes(timestamp),
    {
        let mut pre = self.pre;
        pre.push(0u8);
        let mut ts = to_be8(timestamp);
        pre.append(&mut ts);
        assert(pre@ =~= self@ + seq![0u8] + ts_bytes(timestamp));
        StorageKeyBuilder { pre }
    }

    /// Closes the key as the inclusive start of a range scan.
    pub fn lower_closed_bound_end_key(self, time: Option<i64>) -> (r: Self)
        ensures
            r@ == match time {
                Some(t) => lower_bound_spec(self@, Some(t)),
                None => self@ + seq![0u8],
            },
    {
        let mut pre = self.pre;
        pre.push(0u8);
        if let Some(t) = time {
            if t >= 1 {
                let mut ts = to_be8(t - 1);
                pre.append(&mut ts);
                assert(pre@ =~= self@ + seq![0u8] + ts_bytes((t - 1) as i64));
            } else {
                assert(pre@ =~= self@ + seq![0u8]);
            }
        } else {
            assert(pre@ =~= self@ + seq![0u8]);
        }
        StorageKeyBuilder { pre }
    }

    /// Closes the key as the exclusive end of a range scan.
    pub fn upper_open_bound_end_key(self, time: Option<i64>) -> (r: Self)
        ensures
            r@ == upper_bound_spec(self@, time),
    {
        let mut pre = self.pre;
        if let Some(t) = time {
            pre.push(0u8);
            let mut ts = to_be8(t);
            pre.append(&mut ts);
            assert(pre@ =~= self@ + seq![0u8] + ts_bytes(t));
        } else {
            pre.push(1u8);
            assert(pre@ =~= self@ + seq![1u8]);
        }
        StorageKeyBuilder { pre }
    }

    /// A second composer with the same stages taken so far.
    pub fn duplicate(&self) -> (r: Self)
        ensures
            r@ == self@,
    {
        StorageKeyBuilder { pre: vstd::slice::slice_to_vec(self.pre.as_slice()) }
    }

    /// Fixes the assembled key.
    pub fn build(self) -> (r: StorageKey)
        ensures
            r@ == self@,
    {
        StorageKey { key: self.pre }
    }
}

proof fn lemma_pow256_le(j: nat, k: nat)
    requires
        j <= k,
    ensures
        pow256(j) <= pow256(k),
    decreases k,
{
    if j < k {
        lemma_pow256_le(j, (k - 1) as nat);
        assert(pow256(k) == 256 * pow256((k - 1) as nat));
        assert(pow256((k - 1) as nat) <= 256 * pow256((k - 1) as nat)) by (nonlinear_arith)
            requires
                pow256((k - 1) as nat) >= 0,
        ;
    }
}

} // verus!
