//! Raw event storage: an ordered, column-partitioned key-value store.
//!
//! Each column family holds its entries sorted by key in strict lexicographic
//! order; a later write with the same key overwrites. Range scans, the
//! bounded iterator and the retention sweep are all stated against that
//! ordered sequence of entries.
use vstd::prelude::*;

use crate::keys::{ts_bytes, upper_bound_spec};
use crate::order::{
    eq_bytes, lemma_lex_asym, lemma_lex_irrefl, lemma_lex_total, lemma_lex_trans, lex_le, lex_lt,
    lt_bytes, starts_with,
};

verus! {

/// What a column family holds: key-value pairs of raw bytes.
pub type Entries = Seq<(Seq<u8>, Seq<u8>)>;

/// Keys strictly increase: they are unique and a scan meets them in
/// lexicographic — for a fixed prefix, chronological — order.
pub open spec fn sorted(s: Entries) -> bool {
    forall|i: int, j: int| 0 <= i < j < s.len() ==> lex_lt(s[i].0, s[j].0)
}

/// The value stored under a key, if any.
pub open spec fn spec_get(s: Entries, k: Seq<u8>) -> Option<Seq<u8>>
    decreases s.len(),
{
    if s.len() == 0 {
        None
    } else if s[0].0 == k {
        Some(s[0].1)
    } else {
        spec_get(s.drop_first(), k)
    }
}

/// Whether an entry's key lies in the half-open range `[from, to)`.
pub open spec fn in_range(e: (Seq<u8>, Seq<u8>), from: Seq<u8>, to: Seq<u8>) -> bool {
    lex_le(from, e.0) && lex_lt(e.0, to)
}

/// The entries that satisfy `p`, in their stored order.
pub open spec fn entries_where(s: Entries, p: spec_fn((Seq<u8>, Seq<u8>)) -> bool) -> Entries
    decreases s.len(),
{
    if s.len() == 0 {
        Seq::empty()
    } else if p(s[0]) {
        seq![s[0]] + entries_where(s.drop_first(), p)
    } else {
        entries_where(s.drop_first(), p)
    }
}

/// Keeps the entries whose key lies in `[from, to)`.
pub open spec fn inside_pred(from: Seq<u8>, to: Seq<u8>) -> spec_fn((Seq<u8>, Seq<u8>)) -> bool {
    |e: (Seq<u8>, Seq<u8>)| in_range(e, from, to)
}

/// Keeps the entries whose key lies outside `[from, to)`.
pub open spec fn outside_pred(from: Seq<u8>, to: Seq<u8>) -> spec_fn((Seq<u8>, Seq<u8>)) -> bool {
    |e: (Seq<u8>, Seq<u8>)| !in_range(e, from, to)
}

/// Keeps the entries stored under a key other than `k`.
pub open spec fn key_ne_pred(k: Seq<u8>) -> spec_fn((Seq<u8>, Seq<u8>)) -> bool {
    |e: (Seq<u8>, Seq<u8>)| e.0 != k
}

/// Keeps the entries whose key lies in the reverse range `(to, from]`.
pub open spec fn rev_inside_pred(from: Seq<u8>, to: Seq<u8>) -> spec_fn(
    (Seq<u8>, Seq<u8>),
) -> bool {
    |e: (Seq<u8>, Seq<u8>)| lex_lt(to, e.0) && lex_le(e.0, from)
}

/// The timestamp the 8 trailing bytes of a key carry.
pub open spec fn trailing_ts(k: Seq<u8>) -> i64 {
    (crate::keys::from_be(k.skip(k.len() - 8)) as u64) as i64
}

/// Whether a key's trailing timestamp lies before the retention cutoff.
pub open spec fn key_expired(k: Seq<u8>, cutoff: i64) -> bool {
    k.len() >= 8 && trailing_ts(k) < cutoff
}

/// Keeps the entries the generic-log sweep for `prefix` leaves standing.
pub open spec fn keep_fresh_pred(prefix: Seq<u8>, cutoff: i64) -> spec_fn(
    (Seq<u8>, Seq<u8>),
) -> bool {
    |e: (Seq<u8>, Seq<u8>)| !(prefix.is_prefix_of(e.0) && key_expired(e.0, cutoff))
}

/// Keeps the entries whose key lies strictly above `c`.
pub open spec fn key_gt_pred(c: Seq<u8>) -> spec_fn((Seq<u8>, Seq<u8>)) -> bool {
    |e: (Seq<u8>, Seq<u8>)| lex_lt(c, e.0)
}

/// Keeps the entries whose key lies strictly below `c`.
pub open spec fn key_lt_pred(c: Seq<u8>) -> spec_fn((Seq<u8>, Seq<u8>)) -> bool {
    |e: (Seq<u8>, Seq<u8>)| lex_lt(e.0, c)
}

/// The keys of the entries, in stored order.
pub open spec fn keys_of(s: Entries) -> Seq<Seq<u8>> {
    Seq::new(s.len(), |i: int| s[i].0)
}

/// The entries a forward range scan over `[from, to)` returns.
pub open spec fn range_spec(s: Entries, from: Seq<u8>, to: Seq<u8>) -> Entries {
    entries_where(s, inside_pred(from, to))
}

/// The entries a reverse range scan over `(to, from]` returns, latest first.
pub open spec fn rev_range_spec(s: Entries, from: Seq<u8>, to: Seq<u8>) -> Entries {
    entries_where(s, rev_inside_pred(from, to)).reverse()
}

/// The scan direction: ascending from the start key, or descending from it.
#[derive(Clone, Copy, Debug, PartialEq, Eq, Structural)]
pub enum Direction {
    Forward,
    Reverse,
}

/// A parsed trailing timestamp names the spec-level one.
pub proof fn lemma_trailing_ts(k: Seq<u8>, ts: i64)
    requires
        k.len() >= 8,
        crate::keys::ts_bytes(ts) == k.skip(k.len() - 8),
    ensures
        trailing_ts(k) == ts,
{
    crate::keys::lemma_pow256_8();
    assert(((ts as u64) as nat) < crate::keys::pow256(8));
    crate::keys::lemma_from_be_bytes((ts as u64) as nat, 8);
    assert(crate::keys::from_be(k.skip(k.len() - 8)) == (ts as u64) as nat);
    assert(((ts as u64) as i64) == ts) by (bit_vector);
}

/// The result of writing `(k, v)`: the entry takes its place in key order,
/// displacing an equal key.
pub open spec fn insert_sorted(s: Entries, k: Seq<u8>, v: Seq<u8>) -> Entries
    decreases s.len(),
{
    if s.len() == 0 {
        seq![(k, v)]
    } else if lex_lt(s[0].0, k) {
        seq![s[0]] + insert_sorted(s.drop_first(), k, v)
    } else if s[0].0 == k {
        seq![(k, v)] + s.drop_first()
    } else {
        seq![(k, v)] + s
    }
}

pub proof fn lemma_entries_where_push(s: Entries, p: spec_fn((Seq<u8>, Seq<u8>)) -> bool, e: (Seq<
    u8,
>, Seq<u8>))
    ensures
        entries_where(s.push(e), p) == if p(e) {
            entries_where(s, p).push(e)
        } else {
            entries_where(s, p)
        },
    decreases s.len(),
{
    if s.len() == 0 {
        assert(s.push(e)[0] == e);
        assert(s.push(e).drop_first() =~= s);
        if p(e) {
            assert(entries_where(s.push(e), p) == seq![e] + entries_where(s, p));
            assert(seq![e] + entries_where(s, p) =~= entries_where(s, p).push(e));
        }
    } else {
        assert(s.push(e)[0] == s[0]);
        assert(s.push(e).drop_first() =~= s.drop_first().push(e));
        lemma_entries_where_push(s.drop_first(), p, e);
        if p(s[0]) {
            if p(e) {
                assert(seq![s[0]] + entries_where(s.drop_first(), p).push(e) =~= (seq![s[0]]
                    + entries_where(s.drop_first(), p)).push(e));
            }
        }
    }
}

/// An entry survives the sieve exactly when it is stored and satisfies `p`.
pub proof fn lemma_entries_where_membership(
    s: Entries,
    p: spec_fn((Seq<u8>, Seq<u8>)) -> bool,
    e: (Seq<u8>, Seq<u8>),
)
    ensures
        entries_where(s, p).contains(e) <==> (s.contains(e) && p(e)),
    decreases s.len(),
{
    if s.len() > 0 {
        lemma_entries_where_membership(s.drop_first(), p, e);
        let rest = entries_where(s.drop_first(), p);
        if p(s[0]) {
            assert(entries_where(s, p) == seq![s[0]] + rest);
            assert forall|i: int| 0 <= i < rest.len() implies (seq![s[0]] + rest)[i + 1]
                == rest[i] by {}
            if entries_where(s, p).contains(e) {
                let i = choose|i: int|
                    0 <= i < entries_where(s, p).len() && entries_where(s, p)[i] == e;
                if i == 0 {
                    assert(s[0] == e);
                    assert(s.contains(e)) by {
                        assert(s[0] == e);
                    }
                } else {
                    assert(rest[i - 1] == e);
                    assert(rest.contains(e));
                    assert(s.drop_first().contains(e) && p(e));
                    let j = choose|j: int|
                        0 <= j < s.drop_first().len() && s.drop_first()[j] == e;
                    assert(s[j + 1] == e);
                }
            }
            if s.contains(e) && p(e) {
                let i = choose|i: int| 0 <= i < s.len() && s[i] == e;
                if i == 0 {
                    assert(entries_where(s, p)[0] == e);
                } else {
                    assert(s.drop_first()[i - 1] == e);
                    assert(s.drop_first().contains(e));
                    assert(rest.contains(e));
                    let j = choose|j: int| 0 <= j < rest.len() && rest[j] == e;
                    assert(entries_where(s, p)[j + 1] == e);
                }
            }
        } else {
            if entries_where(s, p).contains(e) {
                assert(s.drop_first().contains(e) && p(e));
                let j = choose|j: int| 0 <= j < s.drop_first().len() && s.drop_first()[j] == e;
                assert(s[j + 1] == e);
            }
            if s.contains(e) && p(e) {
                let i = choose|i: int| 0 <= i < s.len() && s[i] == e;
                assert(i != 0);
                assert(s.drop_first()[i - 1] == e);
                assert(s.drop_first().contains(e));
            }
        }
    }
}

/// Sieving sorted entries leaves them sorted.
pub proof fn lemma_entries_where_sorted(s: Entries, p: spec_fn((Seq<u8>, Seq<u8>)) -> bool)
    requires
        sorted(s),
    ensures
        sorted(entries_where(s, p)),
    decreases s.len(),
{
    if s.len() > 0 {
        assert(sorted(s.drop_first())) by {
            assert(forall|i: int, j: int|
                0 <= i < j < s.drop_first().len() ==> s.drop_first()[i] == s[i + 1]
                    && s.drop_first()[j] == s[j + 1]);
        }
        lemma_entries_where_sorted(s.drop_first(), p);
        let rest = entries_where(s.drop_first(), p);
        if p(s[0]) {
            let r = seq![s[0]] + rest;
            assert forall|i: int, j: int| 0 <= i < j < r.len() implies lex_lt(
                r[i].0,
                r[j].0,
            ) by {
                if i == 0 {
                    assert(rest.contains(rest[j - 1]));
                    lemma_entries_where_membership(s.drop_first(), p, rest[j - 1]);
                    let m = choose|m: int|
                        0 <= m < s.drop_first().len() && s.drop_first()[m] == rest[j - 1];
                    assert(s[m + 1] == rest[j - 1]);
                    assert(lex_lt(s[0].0, s[m + 1].0));
                } else {
                    assert(rest[i - 1] == r[i] && rest[j - 1] == r[j]);
                }
            }
        }
    }
}

/// In sorted entries, a stored pair is what its key looks up to.
pub proof fn lemma_spec_get_contains(s: Entries, k: Seq<u8>, v: Seq<u8>)
    requires
        sorted(s),
        s.contains((k, v)),
    ensures
        spec_get(s, k) == Some(v),
    decreases s.len(),
{
    let i = choose|i: int| 0 <= i < s.len() && s[i] == (k, v);
    if i == 0 {
        assert(s[0].0 == k && s[0].1 == v);
    } else {
        assert(s[0].0 != k) by {
            assert(lex_lt(s[0].0, s[i].0));
            lemma_lex_irrefl(s[0].0);
        }
        assert(sorted(s.drop_first())) by {
            assert(forall|x: int, y: int|
                0 <= x < y < s.drop_first().len() ==> s.drop_first()[x] == s[x + 1]
                    && s.drop_first()[y] == s[y + 1]);
        }
        assert(s.drop_first()[i - 1] == (k, v));
        assert(s.drop_first().contains((k, v)));
        lemma_spec_get_contains(s.drop_first(), k, v);
    }
}

/// What writing a pair does to every lookup, and that it keeps the order.
pub proof fn lemma_insert_sorted_props(s: Entries, k: Seq<u8>, v: Seq<u8>)
    requires
        sorted(s),
    ensures
        sorted(insert_sorted(s, k, v)),
        spec_get(insert_sorted(s, k, v), k) == Some(v),
        forall|k2: Seq<u8>| k2 != k ==> spec_get(insert_sorted(s, k, v), k2) == spec_get(s, k2),
    decreases s.len(),
{
    let r = insert_sorted(s, k, v);
    if s.len() == 0 {
        assert(r == seq![(k, v)]);
        assert(r.drop_first() =~= Seq::empty());
        assert forall|k2: Seq<u8>| k2 != k implies spec_get(r, k2) == spec_get(s, k2) by {
            assert(spec_get(r.drop_first(), k2) is None);
        }
    } else {
        assert(sorted(s.drop_first())) by {
            assert(forall|x: int, y: int|
                0 <= x < y < s.drop_first().len() ==> s.drop_first()[x] == s[x + 1]
                    && s.drop_first()[y] == s[y + 1]);
        }
        if lex_lt(s[0].0, k) {
            lemma_insert_sorted_props(s.drop_first(), k, v);
            let rest = insert_sorted(s.drop_first(), k, v);
            assert(r == seq![s[0]] + rest);
            assert(r[0] == s[0]);
            assert(r.drop_first() =~= rest);
            // every key in rest is either k or a key of s.drop_first(),
            // both above s[0].0
            assert forall|i: int, j: int| 0 <= i < j < r.len() implies lex_lt(
                r[i].0,
                r[j].0,
            ) by {
                if i == 0 {
                    let e = rest[j - 1];
                    assert(r[j] == e);
                    lemma_insert_sorted_membership(s.drop_first(), k, v, e);
                    if e.0 == k {
                        assert(lex_lt(s[0].0, k));
                    } else {
                        let m = choose|m: int|
                            0 <= m < s.drop_first().len() && s.drop_first()[m] == e;
                        assert(s[m + 1] == e);
                        assert(lex_lt(s[0].0, s[m + 1].0));
                    }
                } else {
                    assert(rest[i - 1] == r[i] && rest[j - 1] == r[j]);
                }
            }
            assert(s[0].0 != k) by {
                lemma_lex_irrefl(k);
            }
            assert(spec_get(r, k) == Some(v));
            assert forall|k2: Seq<u8>| k2 != k implies spec_get(r, k2) == spec_get(s, k2) by {
                assert(r.drop_first() == rest);
                assert(spec_get(rest, k2) == spec_get(s.drop_first(), k2));
                if r[0].0 == k2 {
                    assert(spec_get(r, k2) == Some(s[0].1));
                    assert(spec_get(s, k2) == Some(s[0].1));
                } else {
                    assert(spec_get(r, k2) == spec_get(rest, k2));
                    assert(spec_get(s, k2) == spec_get(s.drop_first(), k2));
                }
            }
        } else if s[0].0 == k {
            assert(r == seq![(k, v)] + s.drop_first());
            assert(r[0] == (k, v));
            assert(r.drop_first() =~= s.drop_first());
            assert forall|i: int, j: int| 0 <= i < j < r.len() implies lex_lt(
                r[i].0,
                r[j].0,
            ) by {
                if i == 0 {
                    assert(r[j] == s.drop_first()[j - 1]);
                    assert(s.drop_first()[j - 1] == s[j]);
                    assert(lex_lt(s[0].0, s[j].0));
                } else {
                    assert(r[i] == s[i] && r[j] == s[j]);
                }
            }
        } else {
            assert(r == seq![(k, v)] + s);
            assert(r[0] == (k, v));
            assert(r.drop_first() =~= s);
            lemma_lex_total(s[0].0, k);
            assert(lex_lt(k, s[0].0));
            assert forall|i: int, j: int| 0 <= i < j < r.len() implies lex_lt(
                r[i].0,
                r[j].0,
            ) by {
                if i == 0 {
                    assert(r[j] == s[j - 1]);
                    if j == 1 {
                    } else {
                        assert(lex_lt(s[0].0, s[j - 1].0));
                        lemma_lex_trans(k, s[0].0, s[j - 1].0);
                    }
                } else {
                    assert(r[i] == s[i - 1] && r[j] == s[j - 1]);
                }
            }
        }
    }
}

/// Every entry of the written run is the new pair or an old entry under
/// another key.
pub proof fn lemma_insert_sorted_membership(s: Entries, k: Seq<u8>, v: Seq<u8>, e: (Seq<u8>, Seq<
    u8,
>))
    requires
        sorted(s),
    ensures
        insert_sorted(s, k, v).contains(e) <==> (e == (k, v) || (s.contains(e) && e.0 != k)),
    decreases s.len(),
{
    let r = insert_sorted(s, k, v);
    if s.len() > 0 {
        assert(sorted(s.drop_first())) by {
            assert(forall|x: int, y: int|
                0 <= x < y < s.drop_first().len() ==> s.drop_first()[x] == s[x + 1]
                    && s.drop_first()[y] == s[y + 1]);
        }
    }
    if s.len() == 0 {
        assert(r == seq![(k, v)]);
        if e == (k, v) {
            assert(r[0] == e);
        }
        if r.contains(e) {
            let i = choose|i: int| 0 <= i < r.len() && r[i] == e;
            assert(i == 0);
        }
    } else if lex_lt(s[0].0, k) {
        lemma_insert_sorted_membership(s.drop_first(), k, v, e);
        let rest = insert_sorted(s.drop_first(), k, v);
        assert(r == seq![s[0]] + rest);
        assert(s[0].0 != k) by {
            if s[0].0 == k {
                lemma_lex_irrefl(k);
            }
        }
        if r.contains(e) {
            let i = choose|i: int| 0 <= i < r.len() && r[i] == e;
            if i == 0 {
                assert(e == s[0]);
                assert(s.contains(e)) by {
                    assert(s[0] == e);
                }
            } else {
                assert(rest[i - 1] == e);
                assert(rest.contains(e));
                if e != (k, v) {
                    let m = choose|m: int|
                        0 <= m < s.drop_first().len() && s.drop_first()[m] == e;
                    assert(s[m + 1] == e);
                }
            }
        }
        if e == (k, v) {
            assert(rest.contains(e));
            let j = choose|j: int| 0 <= j < rest.len() && rest[j] == e;
            assert(r[j + 1] == e);
        } else if s.contains(e) && e.0 != k {
            let i = choose|i: int| 0 <= i < s.len() && s[i] == e;
            if i == 0 {
                assert(r[0] == e);
            } else {
                assert(s.drop_first()[i - 1] == e);
                assert(s.drop_first().contains(e));
                assert(rest.contains(e));
                let j = choose|j: int| 0 <= j < rest.len() && rest[j] == e;
                assert(r[j + 1] == e);
            }
        }
    } else if s[0].0 == k {
        assert(r == seq![(k, v)] + s.drop_first());
        if r.contains(e) {
            let i = choose|i: int| 0 <= i < r.len() && r[i] == e;
            if i == 0 {
            } else {
                assert(s.drop_first()[i - 1] == e);
                assert(s[i] == e);
                assert(s.contains(e));
                assert(e.0 != k) by {
                    assert(lex_lt(s[0].0, s[i].0));
                    if e.0 == k {
                        lemma_lex_irrefl(k);
                    }
                }
            }
        }
        if e == (k, v) {
            assert(r[0] == e);
        } else if s.contains(e) && e.0 != k {
            let i = choose|i: int| 0 <= i < s.len() && s[i] == e;
            assert(i != 0);
            assert(s.drop_first()[i - 1] == e);
            assert(r[i] == e);
        }
    } else {
        assert(r == seq![(k, v)] + s);
        lemma_lex_total(s[0].0, k);
        assert(lex_lt(k, s[0].0));
        if r.contains(e) {
            let i = choose|i: int| 0 <= i < r.len() && r[i] == e;
            if i > 0 {
                assert(s[i - 1] == e);
                assert(s.contains(e));
                assert(e.0 != k) by {
                    if e.0 == k {
                        if i - 1 > 0 {
                            assert(lex_lt(s[0].0, s[i - 1].0));
                            lemma_lex_trans(k, s[0].0, e.0);
                            lemma_lex_irrefl(k);
                        } else {
                            lemma_lex_irrefl(k);
                        }
                    }
                }
            }
        }
        if e == (k, v) {
            assert(r[0] == e);
        } else if s.contains(e) && e.0 != k {
            let i = choose|i: int| 0 <= i < s.len() && s[i] == e;
            assert(r[i + 1] == e);
        }
    }
}

/// The key `k` looks up to nothing exactly when no entry holds it.
pub proof fn lemma_spec_get_none_iff(s: Entries, k: Seq<u8>)
    ensures
        (spec_get(s, k) is None) <==> (forall|i: int| 0 <= i < s.len() ==> s[i].0 != k),
    decreases s.len(),
{
    if s.len() > 0 {
        assert(forall|i: int| 0 <= i < s.drop_first().len() ==> s.drop_first()[i] == s[i + 1]);
        lemma_spec_get_none_iff(s.drop_first(), k);
        if s[0].0 != k && spec_get(s, k) is None {
            assert forall|i: int| 0 <= i < s.len() implies s[i].0 != k by {
                if i > 0 {
                    assert(s.drop_first()[i - 1] == s[i]);
                }
            }
        }
    }
}

/// A successful lookup names a stored entry.
pub proof fn lemma_spec_get_some_contains(s: Entries, k: Seq<u8>)
    ensures
        spec_get(s, k) matches Some(v) ==> s.contains((k, v)),
    decreases s.len(),
{
    if s.len() > 0 {
        if s[0].0 == k {
            assert(s[0] == (k, s[0].1));
        } else {
            lemma_spec_get_some_contains(s.drop_first(), k);
            if let Some(v) = spec_get(s, k) {
                assert(s.drop_first().contains((k, v)));
                let i = choose|i: int|
                    0 <= i < s.drop_first().len() && s.drop_first()[i] == (k, v);
                assert(s[i + 1] == (k, v));
            }
        }
    }
}

/// Sieving entries by a predicate on their key changes exactly the lookups
/// of the keys the predicate drops.
pub proof fn lemma_entries_where_get(s: Entries, p: spec_fn((Seq<u8>, Seq<u8>)) -> bool, k: Seq<
    u8,
>)
    requires
        sorted(s),
        forall|e: (Seq<u8>, Seq<u8>)| e.0 == k ==> #[trigger] p(e),
    ensures
        spec_get(entries_where(s, p), k) == spec_get(s, k),
{
    let r = entries_where(s, p);
    lemma_entries_where_sorted(s, p);
    match spec_get(s, k) {
        Some(v) => {
            lemma_spec_get_some_contains(s, k);
            lemma_entries_where_membership(s, p, (k, v));
            lemma_spec_get_contains(r, k, v);
        },
        None => {
            lemma_spec_get_none_iff(s, k);
            lemma_spec_get_none_iff(r, k);
            assert forall|i: int| 0 <= i < r.len() implies r[i].0 != k by {
                assert(r.contains(r[i]));
                lemma_entries_where_membership(s, p, r[i]);
                let j = choose|j: int| 0 <= j < s.len() && s[j] == r[i];
            }
        },
    }
}

/// Dropped keys look up to nothing after the sieve.
pub proof fn lemma_entries_where_get_dropped(
    s: Entries,
    p: spec_fn((Seq<u8>, Seq<u8>)) -> bool,
    k: Seq<u8>,
)
    requires
        forall|e: (Seq<u8>, Seq<u8>)| e.0 == k ==> !#[trigger] p(e),
    ensures
        spec_get(entries_where(s, p), k) is None,
{
    let r = entries_where(s, p);
    lemma_spec_get_none_iff(r, k);
    assert forall|i: int| 0 <= i < r.len() implies r[i].0 != k by {
        assert(r.contains(r[i]));
        lemma_entries_where_membership(s, p, r[i]);
    }
}

/// Writing a pair at its found position is the canonical sorted insert.
proof fn lemma_insert_sorted_at(s: Entries, k: Seq<u8>, v: Seq<u8>, i: int)
    requires
        sorted(s),
        0 <= i <= s.len(),
        forall|j: int| 0 <= j < i ==> lex_lt(s[j].0, k),
        i < s.len() ==> !lex_lt(s[i].0, k),
    ensures
        insert_sorted(s, k, v) == if i < s.len() && s[i].0 == k {
            s.update(i, (k, v))
        } else {
            s.take(i) + seq![(k, v)] + s.skip(i)
        },
    decreases i,
{
    if i == 0 {
        if s.len() == 0 {
            assert(insert_sorted(s, k, v) =~= s.take(0) + seq![(k, v)] + s.skip(0));
        } else if s[0].0 == k {
            assert(insert_sorted(s, k, v) == seq![(k, v)] + s.drop_first());
            assert(seq![(k, v)] + s.drop_first() =~= s.update(0, (k, v)));
        } else {
            assert(insert_sorted(s, k, v) == seq![(k, v)] + s);
            assert(seq![(k, v)] + s =~= s.take(0) + seq![(k, v)] + s.skip(0));
        }
    } else {
        assert(lex_lt(s[0].0, k));
        let d = s.drop_first();
        assert(sorted(d)) by {
            assert(forall|x: int, y: int|
                0 <= x < y < d.len() ==> d[x] == s[x + 1] && d[y] == s[y + 1]);
        }
        assert(forall|j: int| 0 <= j < i - 1 ==> lex_lt(#[trigger] d[j].0, k)) by {
            assert(forall|j: int| 0 <= j < i - 1 ==> d[j] == s[j + 1]);
        }
        assert(i - 1 < d.len() ==> !lex_lt(d[i - 1].0, k)) by {
            if i - 1 < d.len() {
                assert(d[i - 1] == s[i]);
            }
        }
        lemma_insert_sorted_at(d, k, v, i - 1);
        assert(insert_sorted(s, k, v) == seq![s[0]] + insert_sorted(d, k, v));
        if i < s.len() && s[i].0 == k {
            assert(d[i - 1] == s[i]);
            assert(seq![s[0]] + d.update(i - 1, (k, v)) =~= s.update(i, (k, v)));
        } else {
            assert(seq![s[0]] + (d.take(i - 1) + seq![(k, v)] + d.skip(i - 1)) =~= s.take(i)
                + seq![(k, v)] + s.skip(i));
        }
    }
}

/// One column family: entries sorted by key, plus the count of durable
/// flushes it has taken, which stands for the flushed-to-disk observation.
pub struct RawEventStore {
    entries: Vec<(Vec<u8>, Vec<u8>)>,
    flushes: u64,
}

impl View for RawEventStore {
    type V = Entries;

    closed spec fn view(&self) -> Entries {
        self.entries.deep_view()
    }
}

/// How the deep view of an entry vector reads off its elements.
pub proof fn lemma_deep_is_map(v: &Vec<(Vec<u8>, Vec<u8>)>)
    ensures
        v.deep_view().len() == v@.len(),
        forall|i: int|
            0 <= i < v@.len() ==> v.deep_view()[i] == (v@[i].0@, v@[i].1@),
{
    assert forall|i: int| 0 <= i < v@.len() implies v.deep_view()[i] == (
        v@[i].0@,
        v@[i].1@,
    ) by {
        assert(v@[i].0.deep_view() =~= v@[i].0@);
        assert(v@[i].1.deep_view() =~= v@[i].1@);
    }
}

impl RawEventStore {
    /// The entries are well formed: keys strictly increase.
    pub open spec fn wf(self) -> bool {
        sorted(self@)
    }

    /// How many durable flushes this column family has taken.
    pub closed spec fn spec_flushes(self) -> u64 {
        self.flushes
    }

    /// An empty column family.
    pub fn new() -> (s: Self)
        ensures
            s@ == Seq::<(Seq<u8>, Seq<u8>)>::empty(),
            s.wf(),
            s.spec_flushes() == 0,
    {
        let s = RawEventStore { entries: Vec::new(), flushes: 0 };
        proof {
            assert(s@ =~= Seq::<(Seq<u8>, Seq<u8>)>::empty());
        }
        s
    }

    /// Unconditional put: the pair takes its place in key order, displacing
    /// an equal key; every other entry stays.
    pub fn append(&mut self, key: &[u8], raw_event: &[u8])
        requires
            old(self).wf(),
        ensures
            final (self).wf(),
            final (self)@ == insert_sorted(old(self)@, key@, raw_event@),
            spec_get(final (self)@, key@) == Some(raw_event@),
            forall|k: Seq<u8>|
                k != key@ ==> spec_get(final (self)@, k) == spec_get(old(self)@, k),
            final (self).spec_flushes() == old(self).spec_flushes(),
    {
        proof {
            lemma_insert_sorted_props(self@, key@, raw_event@);
            lemma_deep_is_map(&self.entries);
        }
        let ghost s0 = self@;
        let ghost v0 = self.entries@;
        let n = self.entries.len();
        let mut i: usize = 0;
        while i < n && lt_bytes(self.entries[i].0.as_slice(), key)
            invariant
                i <= n,
                n == self.entries@.len(),
                self@ == s0,
                self.entries@ == v0,
                forall|j: int|
                    0 <= j < v0.len() ==> s0[j] == (#[trigger] v0[j].0@, v0[j].1@),
                s0.len() == v0.len(),
                forall|j: int| 0 <= j < i ==> lex_lt(#[trigger] s0[j].0, key@),
                self.flushes == old(self).flushes,
            decreases n - i,
        {
            i += 1;
        }
        proof {
            if i < n {
                assert(!lex_lt(s0[i as int].0, key@));
            }
        }
        let pair = (
            vstd::slice::slice_to_vec(key),
            vstd::slice::slice_to_vec(raw_event),
        );
        proof {
            assert(pair.0@ == key@ && pair.1@ == raw_event@);
        }
        if i < n && eq_bytes(self.entries[i].0.as_slice(), key) {
            self.entries.remove(i);
            self.entries.insert(i, pair);
            proof {
                lemma_insert_sorted_at(s0, key@, raw_event@, i as int);
                lemma_deep_is_map(&self.entries);
                assert(self.entries@ =~= v0.update(i as int, (
                    self.entries@[i as int].0,
                    self.entries@[i as int].1,
                )));
                let t = s0.update(i as int, (key@, raw_event@));
                assert forall|j: int|
                    0 <= j < self.entries@.len() implies self.entries.deep_view()[j] == t[j] by {
                    if j != i {
                        assert(self.entries@[j] == v0[j]);
                    }
                }
                assert(self.entries.deep_view() =~= t);
            }
        } else {
            self.entries.insert(i, pair);
            proof {
                lemma_insert_sorted_at(s0, key@, raw_event@, i as int);
                if i < n {
                    assert(s0[i as int].0 != key@);
                }
                lemma_deep_is_map(&self.entries);
                let t = s0.take(i as int) + seq![(key@, raw_event@)] + s0.skip(i as int);
                assert forall|j: int|
                    0 <= j < self.entries@.len() implies self.entries.deep_view()[j] == t[j] by {
                    if j < i {
                        assert(self.entries@[j] == v0[j]);
                        assert(t[j] == s0[j]);
                    } else if j > i {
                        assert(self.entries@[j] == v0[j - 1]);
                        assert(t[j] == s0[j - 1]);
                    }
                }
                assert(self.entries.deep_view() =~= t);
            }
        }
    }

    /// Removes a single key; every other entry stays.
    #[verifier::loop_isolation(false)]
    pub fn delete(&mut self, key: &[u8])
        requires
            old(self).wf(),
        ensures
            final (self).wf(),
            final (self)@ == entries_where(old(self)@, key_ne_pred(key@)),
            spec_get(final (self)@, key@) is None,
            forall|k: Seq<u8>|
                k != key@ ==> spec_get(final (self)@, k) == spec_get(old(self)@, k),
            final (self).spec_flushes() == old(self).spec_flushes(),
    {
        let ghost p = key_ne_pred(key@);
        let ghost s0 = self@;
        proof {
            lemma_deep_is_map(&self.entries);
        }
        let ghost v0 = self.entries@;
        let mut kept: Vec<(Vec<u8>, Vec<u8>)> = Vec::new();
        let n = self.entries.len();
        proof {
            assert(s0.take(0) =~= Seq::<(Seq<u8>, Seq<u8>)>::empty());
            assert(kept.deep_view() =~= entries_where(s0.take(0), p));
        }
        let mut i: usize = 0;
        while i < n
            invariant
                i <= n,
                n == self.entries@.len(),
                self@ == s0,
                self.entries@ == v0,
                s0.len() == v0.len(),
                forall|j: int|
                    0 <= j < v0.len() ==> s0[j] == (#[trigger] v0[j].0@, v0[j].1@),
                kept.deep_view() == entries_where(s0.take(i as int), p),
                self.flushes == old(self).flushes,
            decreases n - i,
        {
            proof {
                assert(s0[i as int] == (v0[i as int].0@, v0[i as int].1@));
                lemma_entries_where_push(s0.take(i as int), p, s0[i as int]);
                assert(s0.take(i + 1) =~= s0.take(i as int).push(s0[i as int]));
            }
            let ghost kd0 = kept.deep_view();
            let e = &self.entries[i];
            if !eq_bytes(e.0.as_slice(), key) {
                let pair = (
                    vstd::slice::slice_to_vec(e.0.as_slice()),
                    vstd::slice::slice_to_vec(e.1.as_slice()),
                );
                proof {
                    assert((pair.0@, pair.1@) == s0[i as int]);
                }
                let ghost pv = (pair.0@, pair.1@);
                let ghost kv0 = kept@;
                proof {
                    lemma_deep_is_map(&kept);
                }
                kept.push(pair);
                proof {
                    lemma_deep_is_map(&kept);
                    assert forall|j: int|
                        0 <= j < kept@.len() implies kept.deep_view()[j] == kd0.push(pv)[j] by {
                        assert(kept.deep_view()[j] == (kept@[j].0@, kept@[j].1@));
                        if j < kept@.len() - 1 {
                            assert(kept@[j] == kv0[j]);
                            assert(kd0[j] == (kv0[j].0@, kv0[j].1@));
                        } else {
                            assert(kd0.push(pv)[j] == pv);
                            assert((kept@[j].0@, kept@[j].1@) == pv);
                        }
                    }
                    assert(kept.deep_view() =~= kd0.push(pv));
                    assert(kept.deep_view() == entries_where(s0.take(i as int), p).push(
                        s0[i as int],
                    ));
                    assert(kept.deep_view() == entries_where(s0.take(i + 1), p));
                }
            } else {
                proof {
                    assert(s0[i as int].0 == key@);
                    assert(!p(s0[i as int]));
                    assert(kept.deep_view() == entries_where(s0.take(i + 1), p));
                }
            }
            i += 1;
        }
        proof {
            assert(s0.take(n as int) =~= s0);
        }
        self.entries = kept;
        proof {
            lemma_entries_where_sorted(s0, p);
            lemma_entries_where_get_dropped(s0, p, key@);
            assert forall|k: Seq<u8>| k != key@ implies spec_get(final (self)@, k) == spec_get(
                s0,
                k,
            ) by {
                lemma_entries_where_get(s0, p, k);
            }
        }
    }

    /// Range scan over raw keys: exactly the stored entries whose key lies
    /// in `[from, to)`, in ascending key order for `Forward`, and exactly
    /// those in `(to, from]`, in descending order, for `Reverse`.
    #[verifier::loop_isolation(false)]
    pub fn scan_range(&self, from: &[u8], to: &[u8], direction: Direction) -> (r: Vec<
        (Vec<u8>, Vec<u8>),
    >)
        requires
            self.wf(),
        ensures
            direction == Direction::Forward ==> r.deep_view() == range_spec(self@, from@, to@),
            direction == Direction::Reverse ==> r.deep_view() == rev_range_spec(
                self@,
                from@,
                to@,
            ),
    {
        let ghost s0 = self@;
        proof {
            lemma_deep_is_map(&self.entries);
        }
        let ghost v0 = self.entries@;
        let mut out: Vec<(Vec<u8>, Vec<u8>)> = Vec::new();
        let n = self.entries.len();
        match direction {
            Direction::Forward => {
                let ghost p = inside_pred(from@, to@);
                proof {
                    assert(s0.take(0) =~= Seq::<(Seq<u8>, Seq<u8>)>::empty());
                    assert(out.deep_view() =~= entries_where(s0.take(0), p));
                }
                let mut i: usize = 0;
                while i < n
                    invariant
                        i <= n,
                        out.deep_view() == entries_where(s0.take(i as int), p),
                    decreases n - i,
                {
                    proof {
                        assert(s0[i as int] == (v0[i as int].0@, v0[i as int].1@));
                        lemma_entries_where_push(s0.take(i as int), p, s0[i as int]);
                        assert(s0.take(i + 1) =~= s0.take(i as int).push(s0[i as int]));
                    }
                    let ghost od0 = out.deep_view();
                    let e = &self.entries[i];
                    if crate::order::le_bytes(from, e.0.as_slice()) && lt_bytes(
                        e.0.as_slice(),
                        to,
                    ) {
                        let pair = (
                            vstd::slice::slice_to_vec(e.0.as_slice()),
                            vstd::slice::slice_to_vec(e.1.as_slice()),
                        );
                        proof {
                            assert((pair.0@, pair.1@) == s0[i as int]);
                        }
                        let ghost pv = (pair.0@, pair.1@);
                        let ghost ov0 = out@;
                        proof {
                            lemma_deep_is_map(&out);
                        }
                        out.push(pair);
                        proof {
                            lemma_deep_is_map(&out);
                            assert forall|j: int|
                                0 <= j < out@.len() implies out.deep_view()[j] == od0.push(
                                pv,
                            )[j] by {
                                if j < out@.len() - 1 {
                                    assert(out@[j] == ov0[j]);
                                    assert(od0[j] == (ov0[j].0@, ov0[j].1@));
                                }
                            }
                            assert(out.deep_view() =~= od0.push(pv));
                        }
                    } else {
                        proof {
                            assert(!p(s0[i as int]));
                        }
                    }
                    i += 1;
                }
                proof {
                    assert(s0.take(n as int) =~= s0);
                }
            },
            Direction::Reverse => {
                let ghost p = rev_inside_pred(from@, to@);
                proof {
                    assert(s0.skip(n as int) =~= Seq::<(Seq<u8>, Seq<u8>)>::empty());
                    assert(out.deep_view() =~= entries_where(s0.skip(n as int), p).reverse());
                }
                let mut j: usize = n;
                while j > 0
                    invariant
                        j <= n,
                        out.deep_view() == entries_where(s0.skip(j as int), p).reverse(),
                    decreases j,
                {
                    j -= 1;
                    proof {
                        assert(s0[j as int] == (v0[j as int].0@, v0[j as int].1@));
                        assert(s0.skip(j as int) =~= seq![s0[j as int]] + s0.skip(j + 1));
                        assert((seq![s0[j as int]] + s0.skip(j + 1)).drop_first() =~= s0.skip(
                            j + 1,
                        ));
                    }
                    let ghost od0 = out.deep_view();
                    let e = &self.entries[j];
                    if lt_bytes(to, e.0.as_slice()) && crate::order::le_bytes(
                        e.0.as_slice(),
                        from,
                    ) {
                        let pair = (
                            vstd::slice::slice_to_vec(e.0.as_slice()),
                            vstd::slice::slice_to_vec(e.1.as_slice()),
                        );
                        proof {
                            assert((pair.0@, pair.1@) == s0[j as int]);
                        }
                        let ghost pv = (pair.0@, pair.1@);
                        let ghost ov0 = out@;
                        proof {
                            lemma_deep_is_map(&out);
                        }
                        out.push(pair);
                        proof {
                            lemma_deep_is_map(&out);
                            assert forall|m: int|
                                0 <= m < out@.len() implies out.deep_view()[m] == od0.push(
                                pv,
                            )[m] by {
                                if m < out@.len() - 1 {
                                    assert(out@[m] == ov0[m]);
                                    assert(od0[m] == (ov0[m].0@, ov0[m].1@));
                                }
                            }
                            assert(out.deep_view() =~= od0.push(pv));
                            assert(entries_where(s0.skip(j as int), p) == seq![s0[j as int]]
                                + entries_where(s0.skip(j + 1), p));
                            assert(out.deep_view() =~= entries_where(
                                s0.skip(j as int),
                                p,
                            ).reverse());
                        }
                    } else {
                        proof {
                            assert(!p(s0[j as int]));
                            assert(entries_where(s0.skip(j as int), p) == entries_where(
                                s0.skip(j + 1),
                                p,
                            ));
                        }
                    }
                }
                proof {
                    assert(s0.skip(0) =~= s0);
                }
            },
        }
        out
    }

    /// Snapshot of every key in the column family, in ascending order.
    #[verifier::loop_isolation(false)]
    pub fn all_keys(&self) -> (r: Vec<Vec<u8>>)
        ensures
            r.deep_view() == keys_of(self@),
    {
        let ghost s0 = self@;
        proof {
            lemma_deep_is_map(&self.entries);
        }
        let ghost v0 = self.entries@;
        let mut out: Vec<Vec<u8>> = Vec::new();
        let n = self.entries.len();
        let mut i: usize = 0;
        while i < n
            invariant
                i <= n,
                out@.len() == i,
                forall|j: int| 0 <= j < i ==> (#[trigger] out@[j])@ == s0[j].0,
            decreases n - i,
        {
            let e = &self.entries[i];
            out.push(vstd::slice::slice_to_vec(e.0.as_slice()));
            i += 1;
        }
        proof {
            assert forall|j: int|
                0 <= j < out@.len() implies out.deep_view()[j] == keys_of(s0)[j] by {
                assert(out@[j].deep_view() =~= out@[j]@);
            }
            assert(out.deep_view() =~= keys_of(s0));
        }
        out
    }

    /// Removes every entry whose key lies in `[from, to)`; the rest stay.
    #[verifier::loop_isolation(false)]
    pub fn delete_range(&mut self, from: &[u8], to: &[u8])
        requires
            old(self).wf(),
        ensures
            final (self).wf(),
            final (self)@ == entries_where(old(self)@, outside_pred(from@, to@)),
            final (self).spec_flushes() == old(self).spec_flushes(),
    {
        let ghost p = outside_pred(from@, to@);
        let ghost s0 = self@;
        proof {
            lemma_deep_is_map(&self.entries);
        }
        let ghost v0 = self.entries@;
        let mut kept: Vec<(Vec<u8>, Vec<u8>)> = Vec::new();
        let n = self.entries.len();
        proof {
            assert(s0.take(0) =~= Seq::<(Seq<u8>, Seq<u8>)>::empty());
            assert(kept.deep_view() =~= entries_where(s0.take(0), p));
        }
        let mut i: usize = 0;
        while i < n
            invariant
                i <= n,
                kept.deep_view() == entries_where(s0.take(i as int), p),
            decreases n - i,
        {
            proof {
                assert(s0[i as int] == (v0[i as int].0@, v0[i as int].1@));
                lemma_entries_where_push(s0.take(i as int), p, s0[i as int]);
                assert(s0.take(i + 1) =~= s0.take(i as int).push(s0[i as int]));
            }
            let ghost kd0 = kept.deep_view();
            let e = &self.entries[i];
            let inside = crate::order::le_bytes(from, e.0.as_slice()) && lt_bytes(
                e.0.as_slice(),
                to,
            );
            if !inside {
                let pair = (
                    vstd::slice::slice_to_vec(e.0.as_slice()),
                    vstd::slice::slice_to_vec(e.1.as_slice()),
                );
                proof {
                    assert((pair.0@, pair.1@) == s0[i as int]);
                }
                let ghost pv = (pair.0@, pair.1@);
                let ghost kv0 = kept@;
                proof {
                    lemma_deep_is_map(&kept);
                }
                kept.push(pair);
                proof {
                    lemma_deep_is_map(&kept);
                    assert forall|j: int|
                        0 <= j < kept@.len() implies kept.deep_view()[j] == kd0.push(pv)[j] by {
                        if j < kept@.len() - 1 {
                            assert(kept@[j] == kv0[j]);
                            assert(kd0[j] == (kv0[j].0@, kv0[j].1@));
                        }
                    }
                    assert(kept.deep_view() =~= kd0.push(pv));
                }
            } else {
                proof {
                    assert(!p(s0[i as int]));
                }
            }
            i += 1;
        }
        proof {
            assert(s0.take(n as int) =~= s0);
        }
        self.entries = kept;
        proof {
            lemma_entries_where_sorted(s0, p);
        }
    }

    /// Removes every entry whose key begins with `prefix` and carries a
    /// trailing timestamp older than `cutoff`; the generic-log sweep, where
    /// a log kind sits between the sensor and the timestamp and a single
    /// range delete cannot reach the keys.
    #[verifier::loop_isolation(false)]
    pub fn delete_old_under_prefix(&mut self, prefix: &[u8], cutoff: i64)
        requires
            old(self).wf(),
        ensures
            final (self).wf(),
            final (self)@ == entries_where(old(self)@, keep_fresh_pred(prefix@, cutoff)),
            final (self).spec_flushes() == old(self).spec_flushes(),
    {
        let ghost p = keep_fresh_pred(prefix@, cutoff);
        let ghost s0 = self@;
        proof {
            lemma_deep_is_map(&self.entries);
        }
        let ghost v0 = self.entries@;
        let mut kept: Vec<(Vec<u8>, Vec<u8>)> = Vec::new();
        let n = self.entries.len();
        proof {
            assert(s0.take(0) =~= Seq::<(Seq<u8>, Seq<u8>)>::empty());
            assert(kept.deep_view() =~= entries_where(s0.take(0), p));
        }
        let mut i: usize = 0;
        while i < n
            invariant
                i <= n,
                kept.deep_view() == entries_where(s0.take(i as int), p),
            decreases n - i,
        {
            proof {
                assert(s0[i as int] == (v0[i as int].0@, v0[i as int].1@));
                lemma_entries_where_push(s0.take(i as int), p, s0[i as int]);
                assert(s0.take(i + 1) =~= s0.take(i as int).push(s0[i as int]));
            }
            let ghost kd0 = kept.deep_view();
            let e = &self.entries[i];
            let klen = e.0.len();
            let mut expired = false;
            if starts_with(e.0.as_slice(), prefix) && klen >= 8 {
                let ts = crate::keys::from_be8(e.0.as_slice(), klen - 8);
                proof {
                    lemma_trailing_ts(s0[i as int].0, ts);
                }
                if ts < cutoff {
                    expired = true;
                }
            }
            proof {
                assert(expired == !p(s0[i as int]));
            }
            if !expired {
                let pair = (
                    vstd::slice::slice_to_vec(e.0.as_slice()),
                    vstd::slice::slice_to_vec(e.1.as_slice()),
                );
                proof {
                    assert((pair.0@, pair.1@) == s0[i as int]);
                }
                let ghost pv = (pair.0@, pair.1@);
                let ghost kv0 = kept@;
                proof {
                    lemma_deep_is_map(&kept);
                }
                kept.push(pair);
                proof {
                    lemma_deep_is_map(&kept);
                    assert forall|j: int|
                        0 <= j < kept@.len() implies kept.deep_view()[j] == kd0.push(pv)[j] by {
                        if j < kept@.len() - 1 {
                            assert(kept@[j] == kv0[j]);
                            assert(kd0[j] == (kv0[j].0@, kv0[j].1@));
                        }
                    }
                    assert(kept.deep_view() =~= kd0.push(pv));
                }
            }
            i += 1;
        }
        proof {
            assert(s0.take(n as int) =~= s0);
        }
        self.entries = kept;
        proof {
            lemma_entries_where_sorted(s0, p);
        }
    }

    /// A bounded walk over the connection events in `[from, to)` or
    /// `(to, from]`.
    pub fn conn_iter(&self, from: &[u8], to: &[u8], direction: Direction) -> (it: Iter)
        requires
            self.wf(),
        ensures
            it.wf(),
            direction == Direction::Forward ==> it@ == range_spec(self@, from@, to@),
            direction == Direction::Reverse ==> it@ == rev_range_spec(self@, from@, to@),
    {
        Iter::new(self, from, to, direction)
    }

    /// A bounded walk over the DNS events in the given range.
    pub fn dns_iter(&self, from: &[u8], to: &[u8], direction: Direction) -> (it: Iter)
        requires
            self.wf(),
        ensures
            it.wf(),
            direction == Direction::Forward ==> it@ == range_spec(self@, from@, to@),
            direction == Direction::Reverse ==> it@ == rev_range_spec(self@, from@, to@),
    {
        Iter::new(self, from, to, direction)
    }

    /// A bounded walk over the HTTP events in the given range.
    pub fn http_iter(&self, from: &[u8], to: &[u8], direction: Direction) -> (it: Iter)
        requires
            self.wf(),
        ensures
            it.wf(),
            direction == Direction::Forward ==> it@ == range_spec(self@, from@, to@),
            direction == Direction::Reverse ==> it@ == rev_range_spec(self@, from@, to@),
    {
        Iter::new(self, from, to, direction)
    }

    /// A bounded walk over the generic-log events in the given range.
    pub fn log_iter(&self, from: &[u8], to: &[u8], direction: Direction) -> (it: Iter)
        requires
            self.wf(),
        ensures
            it.wf(),
            direction == Direction::Forward ==> it@ == range_spec(self@, from@, to@),
            direction == Direction::Reverse ==> it@ == rev_range_spec(self@, from@, to@),
    {
        Iter::new(self, from, to, direction)
    }

    /// A bounded walk over the RDP events in the given range.
    pub fn rdp_iter(&self, from: &[u8], to: &[u8], direction: Direction) -> (it: Iter)
        requires
            self.wf(),
        ensures
            it.wf(),
            direction == Direction::Forward ==> it@ == range_spec(self@, from@, to@),
            direction == Direction::Reverse ==> it@ == rev_range_spec(self@, from@, to@),
    {
        Iter::new(self, from, to, direction)
    }

    /// How many durable flushes this column family has taken so far.
    pub fn flush_count(&self) -> (n: u64)
        ensures
            n == self.spec_flushes(),
    {
        self.flushes
    }

    /// Durable flush: the contents stay, the flush count advances.
    pub fn flush(&mut self)
        ensures
            final (self)@ == old(self)@,
            final (self).spec_flushes() == if old(self).spec_flushes() == u64::MAX {
                u64::MAX
            } else {
                (old(self).spec_flushes() + 1) as u64
            },
    {
        if self.flushes < u64::MAX {
            self.flushes = self.flushes + 1;
        }
    }
}

/// How a range delete changes each lookup: keys inside `[from, to)` are
/// gone, all others answer as before.
pub proof fn lemma_delete_range_get(s: Entries, from: Seq<u8>, to: Seq<u8>, key: Seq<u8>)
    requires
        sorted(s),
    ensures
        spec_get(entries_where(s, outside_pred(from, to)), key) == if lex_le(from, key)
            && lex_lt(key, to) {
            None::<Seq<u8>>
        } else {
            spec_get(s, key)
        },
{
    let p = outside_pred(from, to);
    if lex_le(from, key) && lex_lt(key, to) {
        lemma_entries_where_get_dropped(s, p, key);
    } else {
        lemma_entries_where_get(s, p, key);
    }
}

/// How the generic-log sweep changes each lookup: expired keys under the
/// prefix are gone, all others answer as before.
pub proof fn lemma_sweep_prefix_get(s: Entries, prefix: Seq<u8>, cutoff: i64, key: Seq<u8>)
    requires
        sorted(s),
    ensures
        spec_get(entries_where(s, keep_fresh_pred(prefix, cutoff)), key) == if prefix.is_prefix_of(
            key,
        ) && key_expired(key, cutoff) {
            None::<Seq<u8>>
        } else {
            spec_get(s, key)
        },
{
    let p = keep_fresh_pred(prefix, cutoff);
    if prefix.is_prefix_of(key) && key_expired(key, cutoff) {
        lemma_entries_where_get_dropped(s, p, key);
    } else {
        lemma_entries_where_get(s, p, key);
    }
}

/// Two keys that open with the same prefix and carry their instants next
/// order chronologically, whatever follows the instants.
pub proof fn lemma_shaped_key_order(prefix: Seq<u8>, ta: i64, tb: i64, ra: Seq<u8>, rb: Seq<u8>)
    requires
        0 <= ta < tb,
    ensures
        lex_lt(prefix + seq![0u8] + ts_bytes(ta) + ra, prefix + seq![0u8] + ts_bytes(tb) + rb),
{
    crate::keys::lemma_be_bytes_len(ta as u64 as nat, 8);
    crate::keys::lemma_be_bytes_len(tb as u64 as nat, 8);
    crate::keys::lemma_ts_bytes_order(ta, tb);
    crate::order::lemma_lex_concat(ts_bytes(ta), ts_bytes(tb), ra, rb);
    crate::order::lemma_lex_prepend(prefix + seq![0u8], ts_bytes(ta) + ra, ts_bytes(tb) + rb);
    assert((prefix + seq![0u8]) + (ts_bytes(ta) + ra) =~= prefix + seq![0u8] + ts_bytes(ta) + ra);
    assert((prefix + seq![0u8]) + (ts_bytes(tb) + rb) =~= prefix + seq![0u8] + ts_bytes(tb) + rb);
}

/// A range scan over `[t1, t2)` of one sensor returns a stored record
/// exactly when its timestamp lies in the interval.
pub proof fn lemma_range_scan_interval(
    s: Entries,
    prefix: Seq<u8>,
    t1: i64,
    t2: i64,
    ts: i64,
    rest: Seq<u8>,
    v: Seq<u8>,
)
    requires
        sorted(s),
        0 <= t1,
        0 <= t2,
        0 <= ts,
    ensures
        range_spec(
            s,
            upper_bound_spec(prefix, Some(t1)),
            upper_bound_spec(prefix, Some(t2)),
        ).contains((prefix + seq![0u8] + ts_bytes(ts) + rest, v)) <==> (s.contains(
            (prefix + seq![0u8] + ts_bytes(ts) + rest, v),
        ) && t1 <= ts < t2),
{
    let key = prefix + seq![0u8] + ts_bytes(ts) + rest;
    let lb = upper_bound_spec(prefix, Some(t1));
    let ub = upper_bound_spec(prefix, Some(t2));
    lemma_entries_where_membership(s, inside_pred(lb, ub), (key, v));
    crate::keys::lemma_upper_bound_time_cuts(prefix, t1, ts, rest);
    crate::keys::lemma_upper_bound_time_cuts(prefix, t2, ts, rest);
    if ts < t1 {
        crate::order::lemma_lex_asym(key, lb);
        crate::order::lemma_lex_irrefl(key);
        assert(!lex_le(lb, key));
    }
    if ts >= t2 {
        crate::order::lemma_lex_asym(ub, key);
        crate::order::lemma_lex_irrefl(ub);
        assert(!lex_lt(key, ub));
    }
}

/// A range scan returns records in ascending timestamp order: within one
/// sensor's prefix, lexicographic order of the stored keys is
/// chronological order.
pub proof fn lemma_range_scan_chronological(
    scan: Entries,
    prefix: Seq<u8>,
    i: int,
    j: int,
    ta: i64,
    ra: Seq<u8>,
    tb: i64,
    rb: Seq<u8>,
)
    requires
        sorted(scan),
        0 <= i < j < scan.len(),
        0 <= ta,
        0 <= tb,
        scan[i].0 == prefix + seq![0u8] + ts_bytes(ta) + ra,
        scan[j].0 == prefix + seq![0u8] + ts_bytes(tb) + rb,
    ensures
        ta <= tb,
{
    if tb < ta {
        lemma_shaped_key_order(prefix, tb, ta, rb, ra);
        crate::order::lemma_lex_asym(scan[i].0, scan[j].0);
    }
}

/// Round trip: a record just written is what a scan straddling its key
/// returns for it, byte for byte.
pub proof fn lemma_ingest_round_trip(s: Entries, k: Seq<u8>, v: Seq<u8>, lb: Seq<u8>, ub: Seq<u8>)
    requires
        sorted(s),
        lex_le(lb, k),
        lex_lt(k, ub),
    ensures
        range_spec(insert_sorted(s, k, v), lb, ub).contains((k, v)),
        spec_get(range_spec(insert_sorted(s, k, v), lb, ub), k) == Some(v),
{
    lemma_insert_sorted_props(s, k, v);
    lemma_insert_sorted_membership(s, k, v, (k, v));
    lemma_entries_where_membership(insert_sorted(s, k, v), inside_pred(lb, ub), (k, v));
    lemma_entries_where_sorted(insert_sorted(s, k, v), inside_pred(lb, ub));
    lemma_spec_get_contains(range_spec(insert_sorted(s, k, v), lb, ub), k, v);
}

/// An empty column family answers every range scan with the empty
/// sequence.
pub proof fn lemma_empty_scan(from: Seq<u8>, to: Seq<u8>)
    ensures
        range_spec(Seq::<(Seq<u8>, Seq<u8>)>::empty(), from, to) == Seq::<
            (Seq<u8>, Seq<u8>),
        >::empty(),
        rev_range_spec(Seq::<(Seq<u8>, Seq<u8>)>::empty(), from, to) == Seq::<
            (Seq<u8>, Seq<u8>),
        >::empty(),
{
    assert(entries_where(Seq::<(Seq<u8>, Seq<u8>)>::empty(), inside_pred(from, to))
        == Seq::<(Seq<u8>, Seq<u8>)>::empty());
    assert(entries_where(Seq::<(Seq<u8>, Seq<u8>)>::empty(), rev_inside_pred(from, to))
        == Seq::<(Seq<u8>, Seq<u8>)>::empty());
    assert(Seq::<(Seq<u8>, Seq<u8>)>::empty().reverse() =~= Seq::<(Seq<u8>, Seq<u8>)>::empty());
}

/// A lazy, finite walk over one bounded range scan: it yields the scan's
/// pairs in order and stops at the boundary.
pub struct Iter {
    items: Vec<(Vec<u8>, Vec<u8>)>,
    pos: usize,
}

impl View for Iter {
    type V = Entries;

    closed spec fn view(&self) -> Entries {
        self.items.deep_view().skip(self.pos as int)
    }
}

impl Iter {
    pub closed spec fn wf(self) -> bool {
        self.pos <= self.items@.len()
    }

    /// Starts a bounded walk over `[from, to)` (forward) or `(to, from]`
    /// (reverse) of the given column family.
    pub fn new(store: &RawEventStore, from: &[u8], to: &[u8], direction: Direction) -> (it: Iter)
        requires
            store.wf(),
        ensures
            it.wf(),
            direction == Direction::Forward ==> it@ == range_spec(store@, from@, to@),
            direction == Direction::Reverse ==> it@ == rev_range_spec(store@, from@, to@),
    {
        let items = store.scan_range(from, to, direction);
        let it = Iter { items, pos: 0 };
        proof {
            assert(it@ =~= it.items.deep_view());
        }
        it
    }

    /// The next pair of the walk, or nothing once the boundary is crossed.
    pub fn next(&mut self) -> (r: Option<(Vec<u8>, Vec<u8>)>)
        requires
            old(self).wf(),
        ensures
            final (self).wf(),
            old(self)@.len() == 0 ==> r is None && final (self)@ == old(self)@,
            old(self)@.len() > 0 ==> {
                &&& r matches Some(e) && e.0@ == old(self)@[0].0 && e.1@ == old(self)@[0].1
                &&& final (self)@ == old(self)@.drop_first()
            },
    {
        if self.pos < self.items.len() {
            proof {
                lemma_deep_is_map(&self.items);
            }
            let e = &self.items[self.pos];
            let pair = (
                vstd::slice::slice_to_vec(e.0.as_slice()),
                vstd::slice::slice_to_vec(e.1.as_slice()),
            );
            proof {
                assert(old(self)@[0] == self.items.deep_view()[self.pos as int]);
            }
            self.pos = self.pos + 1;
            proof {
                assert(self@ =~= old(self)@.drop_first());
            }
            Some(pair)
        } else {
            None
        }
    }
}

/// The column-partitioned database: one ordered column family per record
/// kind, and one more for the sensor roster.
pub struct Database {
    stores: Vec<RawEventStore>,
}

/// The index of the sensor-roster column family.
pub open spec fn sources_index() -> int {
    crate::kind::KIND_COUNT as int
}

impl Database {
    /// The column families, indexed by record-kind code, with the sensor
    /// roster last.
    pub closed spec fn spec_stores(self) -> Seq<RawEventStore> {
        self.stores@
    }

    pub open spec fn wf(self) -> bool {
        &&& self.spec_stores().len() == crate::kind::KIND_COUNT + 1
        &&& forall|i: int|
            0 <= i < self.spec_stores().len() ==> (#[trigger] self.spec_stores()[i]).wf()
    }

    /// Opens a fresh database: every column family present and empty.
    pub fn open() -> (db: Database)
        ensures
            db.wf(),
            forall|i: int|
                0 <= i < db.spec_stores().len() ==> (#[trigger] db.spec_stores()[i])@
                    =~= Seq::<(Seq<u8>, Seq<u8>)>::empty(),
            forall|i: int|
                0 <= i < db.spec_stores().len() ==> (#[trigger] db.spec_stores()[i]).spec_flushes()
                    == 0,
    {
        let mut stores: Vec<RawEventStore> = Vec::new();
        let mut i: usize = 0;
        while i < crate::kind::KIND_COUNT + 1
            invariant
                i <= crate::kind::KIND_COUNT + 1,
                stores@.len() == i,
                forall|j: int|
                    0 <= j < i ==> (#[trigger] stores@[j])@ =~= Seq::<(Seq<u8>, Seq<u8>)>::empty(),
                forall|j: int| 0 <= j < i ==> (#[trigger] stores@[j]).wf(),
                forall|j: int| 0 <= j < i ==> (#[trigger] stores@[j]).spec_flushes() == 0,
            decreases crate::kind::KIND_COUNT + 1 - i,
        {
            stores.push(RawEventStore::new());
            i += 1;
        }
        Database { stores }
    }

    /// The column family of the given record kind, for reading and writing.
    pub fn store_for(&mut self, kind: crate::kind::RawEventKind) -> (s: &mut RawEventStore)
        requires
            old(self).wf(),
        ensures
            *s == old(self).spec_stores()[crate::kind::code_of(kind) as int],
            final (self).spec_stores() == old(self).spec_stores().update(
                crate::kind::code_of(kind) as int,
                *final (s),
            ),
    {
        let i = kind.index();
        vstd::std_specs::vec::vec_index_mut(&mut self.stores, i)
    }

    /// The sensor-roster column family: sensor identifier to last-seen
    /// timestamp.
    pub fn sources_store(&mut self) -> (s: &mut RawEventStore)
        requires
            old(self).wf(),
        ensures
            *s == old(self).spec_stores()[sources_index()],
            final (self).spec_stores() == old(self).spec_stores().update(
                sources_index(),
                *final (s),
            ),
    {
        let i = crate::kind::KIND_COUNT;
        vstd::std_specs::vec::vec_index_mut(&mut self.stores, i)
    }

    /// The raw event store for connections.
    pub fn conn_store(&mut self) -> (s: &mut RawEventStore)
        requires
            old(self).wf(),
        ensures
            *s == old(self).spec_stores()[crate::kind::code_of(
                crate::kind::RawEventKind::Conn,
            ) as int],
            final (self).spec_stores() == old(self).spec_stores().update(
                crate::kind::code_of(crate::kind::RawEventKind::Conn) as int,
                *final (s),
            ),
    {
        self.store_for(crate::kind::RawEventKind::Conn)
    }

    /// The raw event store for DNS events.
    pub fn dns_store(&mut self) -> (s: &mut RawEventStore)
        requires
            old(self).wf(),
        ensures
            *s == old(self).spec_stores()[crate::kind::code_of(
                crate::kind::RawEventKind::Dns,
            ) as int],
            final (self).spec_stores() == old(self).spec_stores().update(
                crate::kind::code_of(crate::kind::RawEventKind::Dns) as int,
                *final (s),
            ),
    {
        self.store_for(crate::kind::RawEventKind::Dns)
    }

    /// The raw event store for generic log events.
    pub fn log_store(&mut self) -> (s: &mut RawEventStore)
        requires
            old(self).wf(),
        ensures
            *s == old(self).spec_stores()[crate::kind::code_of(
                crate::kind::RawEventKind::Log,
            ) as int],
            final (self).spec_stores() == old(self).spec_stores().update(
                crate::kind::code_of(crate::kind::RawEventKind::Log) as int,
                *final (s),
            ),
    {
        self.store_for(crate::kind::RawEventKind::Log)
    }

    /// The raw event store for HTTP events.
    pub fn http_store(&mut self) -> (s: &mut RawEventStore)
        requires
            old(self).wf(),
        ensures
            *s == old(self).spec_stores()[crate::kind::code_of(
                crate::kind::RawEventKind::Http,
            ) as int],
            final (self).spec_stores() == old(self).spec_stores().update(
                crate::kind::code_of(crate::kind::RawEventKind::Http) as int,
                *final (s),
            ),
    {
        self.store_for(crate::kind::RawEventKind::Http)
    }

    /// The raw event store for RDP events.
    pub fn rdp_store(&mut self) -> (s: &mut RawEventStore)
        requires
            old(self).wf(),
        ensures
            *s == old(self).spec_stores()[crate::kind::code_of(
                crate::kind::RawEventKind::Rdp,
            ) as int],
            final (self).spec_stores() == old(self).spec_stores().update(
                crate::kind::code_of(crate::kind::RawEventKind::Rdp) as int,
                *final (s),
            ),
    {
        self.store_for(crate::kind::RawEventKind::Rdp)
    }

    /// The raw event store for packet captures.
    pub fn packet_store(&mut self) -> (s: &mut RawEventStore)
        requires
            old(self).wf(),
        ensures
            *s == old(self).spec_stores()[crate::kind::code_of(
                crate::kind::RawEventKind::Packet,
            ) as int],
            final (self).spec_stores() == old(self).spec_stores().update(
                crate::kind::code_of(crate::kind::RawEventKind::Packet) as int,
                *final (s),
            ),
    {
        self.store_for(crate::kind::RawEventKind::Packet)
    }
}

} // verus!
