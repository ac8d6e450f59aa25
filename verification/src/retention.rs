//! The retention sweeper core.
//!
//! One sweep walks the sensor roster and clears, in every column family it
//! governs, the records older than the cutoff: a single range delete per
//! sensor where the key opens with the sensor and closes with the record
//! timestamp, and a prefix walk for the generic log, whose log kind sits
//! between the two so that no single range can reach its keys.
use vstd::prelude::*;

use crate::keys::{to_be8, ts_bytes};
use crate::kind::{code_of, is_range_retained, lemma_code_bound, lemma_code_injective, RawEventKind};
use crate::order::{lex_le, lex_lt};
use crate::storage::{
    key_expired, keys_of, lemma_delete_range_get, lemma_sweep_prefix_get,
    sources_index, spec_get, Database,
};

verus! {

/// The earliest instant a sweep touches: sixty-one seconds past the epoch,
/// so that the range never reaches into the reserved low key space.
pub const RETENTION_FROM_NS: i64 = 61_000_000_000;

/// Whether a raw key falls in the range one sweep clears for one sensor.
pub open spec fn swept_for_source(key: Seq<u8>, src: Seq<u8>, cutoff: i64) -> bool {
    lex_le(src + seq![0u8] + ts_bytes(RETENTION_FROM_NS), key) && lex_lt(
        key,
        src + seq![0u8] + ts_bytes(cutoff),
    )
}

/// Whether a raw key falls in the swept range of any of the first `n`
/// sensors of the roster.
pub open spec fn swept_upto(key: Seq<u8>, srcs: Seq<Seq<u8>>, n: int, cutoff: i64) -> bool {
    exists|i: int| 0 <= i < n && swept_for_source(key, #[trigger] srcs[i], cutoff)
}

/// Whether a generic-log key belongs to one sensor's prefix and has
/// expired.
pub open spec fn log_swept_for_source(key: Seq<u8>, src: Seq<u8>, cutoff: i64) -> bool {
    src.is_prefix_of(key) && key_expired(key, cutoff)
}

/// Whether the generic-log sweep of any of the first `n` sensors clears a
/// key.
pub open spec fn log_swept_upto(key: Seq<u8>, srcs: Seq<Seq<u8>>, n: int, cutoff: i64) -> bool {
    exists|i: int| 0 <= i < n && log_swept_for_source(key, #[trigger] srcs[i], cutoff)
}

/// One pass of the retention sweeper with the given cutoff instant.
///
/// For every sensor of the roster, each column family whose keys open with
/// the sensor and close with the record timestamp loses exactly the keys in
/// `[sensor NUL ts(61 s), sensor NUL ts(cutoff))`; the generic-log family
/// loses exactly the expired keys under each sensor prefix; the roster and
/// every other family stand unchanged.
#[verifier::loop_isolation(false)]
pub fn retention_sweep(db: &mut Database, cutoff_ns: i64)
    requires
        old(db).wf(),
    ensures
        final (db).wf(),
        final (db).spec_stores().len() == old(db).spec_stores().len(),
        final (db).spec_stores()[sources_index()] == old(db).spec_stores()[sources_index()],
        forall|k: RawEventKind|
            !is_range_retained(k) && k != RawEventKind::Log ==> final (db).spec_stores()[code_of(
                k,
            ) as int] == old(db).spec_stores()[code_of(k) as int],
        forall|k: RawEventKind, key: Seq<u8>|
            is_range_retained(k) ==> #[trigger] spec_get(
                final (db).spec_stores()[code_of(k) as int]@,
                key,
            ) == if swept_upto(
                key,
                keys_of(old(db).spec_stores()[sources_index()]@),
                keys_of(old(db).spec_stores()[sources_index()]@).len() as int,
                cutoff_ns,
            ) {
                None::<Seq<u8>>
            } else {
                spec_get(old(db).spec_stores()[code_of(k) as int]@, key)
            },
        forall|key: Seq<u8>|
            #[trigger] spec_get(
                final (db).spec_stores()[code_of(RawEventKind::Log) as int]@,
                key,
            ) == if log_swept_upto(
                key,
                keys_of(old(db).spec_stores()[sources_index()]@),
                keys_of(old(db).spec_stores()[sources_index()]@).len() as int,
                cutoff_ns,
            ) {
                None::<Seq<u8>>
            } else {
                spec_get(old(db).spec_stores()[code_of(RawEventKind::Log) as int]@, key)
            },
{
    let ghost orig = old(db).spec_stores();
    let ghost srcs = keys_of(orig[sources_index()]@);
    let sources: Vec<Vec<u8>> = db.sources_store().all_keys();
    proof {
        assert(db.spec_stores() =~= orig);
        assert forall|j: int| 0 <= j < sources@.len() implies sources.deep_view()[j] == (
        #[trigger] sources@[j])@ by {
            assert(sources@[j].deep_view() =~= sources@[j]@);
        }
    }
    let n = sources.len();
    let mut si: usize = 0;
    while si < n
        invariant
            si <= n,
            n == sources@.len(),
            srcs.len() == n,
            sources.deep_view() == srcs,
            forall|j: int| 0 <= j < n ==> (#[trigger] sources@[j])@ == srcs[j],
            db.wf(),
            db.spec_stores().len() == orig.len(),
            db.spec_stores()[sources_index()] == orig[sources_index()],
            forall|k: RawEventKind|
                !is_range_retained(k) && k != RawEventKind::Log ==> db.spec_stores()[code_of(
                    k,
                ) as int] == orig[code_of(k) as int],
            forall|k: RawEventKind, key: Seq<u8>|
                is_range_retained(k) ==> #[trigger] spec_get(
                    db.spec_stores()[code_of(k) as int]@,
                    key,
                ) == if swept_upto(key, srcs, si as int, cutoff_ns) {
                    None::<Seq<u8>>
                } else {
                    spec_get(orig[code_of(k) as int]@, key)
                },
            forall|key: Seq<u8>|
                #[trigger] spec_get(
                    db.spec_stores()[code_of(RawEventKind::Log) as int]@,
                    key,
                ) == if log_swept_upto(key, srcs, si as int, cutoff_ns) {
                    None::<Seq<u8>>
                } else {
                    spec_get(orig[code_of(RawEventKind::Log) as int]@, key)
                },
        decreases n - si,
    {
        let ghost snap = db.spec_stores();
        let src = &sources[si];
        let mut lo = vstd::slice::slice_to_vec(src.as_slice());
        lo.push(0u8);
        let mut lob = to_be8(RETENTION_FROM_NS);
        lo.append(&mut lob);
        let mut hi = vstd::slice::slice_to_vec(src.as_slice());
        hi.push(0u8);
        let mut hib = to_be8(cutoff_ns);
        hi.append(&mut hib);
        proof {
            assert(lo@ =~= srcs[si as int] + seq![0u8] + ts_bytes(RETENTION_FROM_NS));
            assert(hi@ =~= srcs[si as int] + seq![0u8] + ts_bytes(cutoff_ns));
        }
        let mut ki: u32 = 0;
        while ki < 37
            invariant
                ki <= 37,
                db.wf(),
                db.spec_stores().len() == orig.len(),
                db.spec_stores()[sources_index()] == snap[sources_index()],
                forall|k: RawEventKind|
                    !is_range_retained(k) || code_of(k) >= ki ==> #[trigger] db.spec_stores()[code_of(
                        k,
                    ) as int] == snap[code_of(k) as int],
                forall|k: RawEventKind, key: Seq<u8>|
                    is_range_retained(k) && code_of(k) < ki ==> #[trigger] spec_get(
                        db.spec_stores()[code_of(k) as int]@,
                        key,
                    ) == if lex_le(lo@, key) && lex_lt(key, hi@) {
                        None::<Seq<u8>>
                    } else {
                        spec_get(snap[code_of(k) as int]@, key)
                    },
            decreases 37 - ki,
        {
            let kind = RawEventKind::from_code(ki).unwrap();
            if kind.range_retained() {
                let ghost before = db.spec_stores();
                let ghost idx = code_of(kind) as int;
                proof {
                    lemma_code_bound(kind);
                    assert(before[idx] == snap[idx]);
                }
                let st = db.store_for(kind);
                st.delete_range(lo.as_slice(), hi.as_slice());
                proof {
                    assert(db.spec_stores() == before.update(
                        idx,
                        db.spec_stores()[idx],
                    ));
                    assert forall|j: int|
                        0 <= j < db.spec_stores().len() implies (
                    #[trigger] db.spec_stores()[j]).wf() by {
                        if j != idx {
                            assert(db.spec_stores()[j] == before[j]);
                        }
                    }
                    assert forall|k: RawEventKind, key: Seq<u8>|
                        is_range_retained(k) && code_of(k) < ki + 1 implies #[trigger] spec_get(
                        db.spec_stores()[code_of(k) as int]@,
                        key,
                    ) == if lex_le(lo@, key) && lex_lt(key, hi@) {
                        None::<Seq<u8>>
                    } else {
                        spec_get(snap[code_of(k) as int]@, key)
                    } by {
                        lemma_code_injective(k, kind);
                        if code_of(k) as int == idx {
                            lemma_delete_range_get(snap[idx]@, lo@, hi@, key);
                        } else {
                            assert(db.spec_stores()[code_of(k) as int] == before[code_of(
                                k,
                            ) as int]);
                        }
                    }
                    assert forall|k: RawEventKind|
                        !is_range_retained(k) || code_of(k) >= ki + 1 implies #[trigger] db.spec_stores()[code_of(
                        k,
                    ) as int] == snap[code_of(k) as int] by {
                        lemma_code_injective(k, kind);
                        assert(code_of(k) as int != idx);
                        assert(db.spec_stores()[code_of(k) as int] == before[code_of(
                            k,
                        ) as int]);
                    }
                }
            }
            ki += 1;
        }
        let ghost mid = db.spec_stores();
        let ghost lidx = code_of(RawEventKind::Log) as int;
        proof {
            lemma_code_bound(RawEventKind::Log);
            assert(mid[lidx] == snap[lidx]);
        }
        let lst = db.log_store();
        lst.delete_old_under_prefix(src.as_slice(), cutoff_ns);
        proof {
            assert(db.spec_stores() == mid.update(lidx, db.spec_stores()[lidx]));
            assert forall|j: int|
                0 <= j < db.spec_stores().len() implies (#[trigger] db.spec_stores()[j]).wf() by {
                if j != lidx {
                    assert(db.spec_stores()[j] == mid[j]);
                }
            }
            // the range-retained families now reflect this sensor's sweep
            assert forall|k: RawEventKind, key: Seq<u8>|
                is_range_retained(k) implies #[trigger] spec_get(
                db.spec_stores()[code_of(k) as int]@,
                key,
            ) == if swept_upto(key, srcs, si + 1, cutoff_ns) {
                None::<Seq<u8>>
            } else {
                spec_get(orig[code_of(k) as int]@, key)
            } by {
                lemma_code_injective(k, RawEventKind::Log);
                assert(db.spec_stores()[code_of(k) as int] == mid[code_of(k) as int]);
                if lex_le(lo@, key) && lex_lt(key, hi@) {
                    assert(swept_for_source(key, srcs[si as int], cutoff_ns));
                    assert(swept_upto(key, srcs, si + 1, cutoff_ns));
                } else {
                    if swept_upto(key, srcs, si as int, cutoff_ns) {
                        let w = choose|i: int|
                            0 <= i < si && swept_for_source(key, #[trigger] srcs[i], cutoff_ns);
                        assert(swept_upto(key, srcs, si + 1, cutoff_ns));
                    } else {
                        assert(!swept_upto(key, srcs, si + 1, cutoff_ns)) by {
                            if swept_upto(key, srcs, si + 1, cutoff_ns) {
                                let w = choose|i: int|
                                    0 <= i < si + 1 && swept_for_source(
                                        key,
                                        #[trigger] srcs[i],
                                        cutoff_ns,
                                    );
                                if w < si {
                                    assert(swept_upto(key, srcs, si as int, cutoff_ns));
                                }
                            }
                        }
                    }
                }
            }
            // the generic log now reflects this sensor's prefix sweep
            assert forall|key: Seq<u8>|
                #[trigger] spec_get(db.spec_stores()[lidx]@, key) == if log_swept_upto(
                    key,
                    srcs,
                    si + 1,
                    cutoff_ns,
                ) {
                    None::<Seq<u8>>
                } else {
                    spec_get(orig[lidx]@, key)
                } by {
                lemma_sweep_prefix_get(snap[lidx]@, srcs[si as int], cutoff_ns, key);
                if log_swept_for_source(key, srcs[si as int], cutoff_ns) {
                    assert(log_swept_upto(key, srcs, si + 1, cutoff_ns));
                } else {
                    if log_swept_upto(key, srcs, si as int, cutoff_ns) {
                        let w = choose|i: int|
                            0 <= i < si && log_swept_for_source(
                                key,
                                #[trigger] srcs[i],
                                cutoff_ns,
                            );
                        assert(log_swept_upto(key, srcs, si + 1, cutoff_ns));
                    } else {
                        assert(!log_swept_upto(key, srcs, si + 1, cutoff_ns)) by {
                            if log_swept_upto(key, srcs, si + 1, cutoff_ns) {
                                let w = choose|i: int|
                                    0 <= i < si + 1 && log_swept_for_source(
                                        key,
                                        #[trigger] srcs[i],
                                        cutoff_ns,
                                    );
                                if w < si {
                                    assert(log_swept_upto(key, srcs, si as int, cutoff_ns));
                                }
                            }
                        }
                    }
                }
            }
            // the roster and the remaining families stand unchanged
            assert forall|k: RawEventKind|
                !is_range_retained(k) && k != RawEventKind::Log implies #[trigger] db.spec_stores()[code_of(
                k,
            ) as int] == orig[code_of(k) as int] by {
                lemma_code_injective(k, RawEventKind::Log);
                assert(db.spec_stores()[code_of(k) as int] == mid[code_of(k) as int]);
            }
        }
        si += 1;
    }
}

} // verus!
