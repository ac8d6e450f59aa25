//! The sensor roster.
//!
//! The roster controller takes connection events from the ingest transport:
//! it records every sensor's last-seen instant in the persistent roster
//! column family, keeps the live map of currently connected non-replay
//! sensors, and says when the peer layer must be notified of a change.
use vstd::prelude::*;
use vstd::string::StringSliceAdditionalSpecFns;
use vstd::utf8::encode_utf8;

use crate::keys::ts_bytes;
use crate::storage::{insert_sorted, spec_get, RawEventStore};

verus! {

/// What the transport reports of a sensor connection.
pub enum ConnState {
    Connected,
    Disconnected,
}

/// The live entries: sensor name to last-seen timestamp.
pub type LiveMap = Seq<(Seq<char>, i64)>;

/// The last-seen timestamp the live map holds for a sensor.
pub open spec fn live_get(s: LiveMap, name: Seq<char>) -> Option<i64>
    decreases s.len(),
{
    if s.len() == 0 {
        None
    } else if s[0].0 == name {
        Some(s[0].1)
    } else {
        live_get(s.drop_first(), name)
    }
}

/// Each sensor appears at most once.
pub open spec fn live_unique(s: LiveMap) -> bool {
    forall|i: int, j: int| 0 <= i < j < s.len() ==> s[i].0 != s[j].0
}

proof fn lemma_live_get_absent(s: LiveMap, name: Seq<char>)
    ensures
        (live_get(s, name) is None) <==> (forall|i: int| 0 <= i < s.len() ==> s[i].0 != name),
    decreases s.len(),
{
    if s.len() > 0 {
        assert(forall|i: int| 0 <= i < s.drop_first().len() ==> s.drop_first()[i] == s[i + 1]);
        lemma_live_get_absent(s.drop_first(), name);
        if s[0].0 != name && live_get(s, name) is None {
            assert forall|i: int| 0 <= i < s.len() implies s[i].0 != name by {
                if i > 0 {
                    assert(s.drop_first()[i - 1] == s[i]);
                }
            }
        }
    }
}

proof fn lemma_live_get_at(s: LiveMap, name: Seq<char>, i: int)
    requires
        live_unique(s),
        0 <= i < s.len(),
        s[i].0 == name,
    ensures
        live_get(s, name) == Some(s[i].1),
    decreases s.len(),
{
    if i == 0 {
    } else {
        assert(s[0].0 != name);
        assert(live_unique(s.drop_first())) by {
            assert(forall|x: int, y: int|
                0 <= x < y < s.drop_first().len() ==> s.drop_first()[x] == s[x + 1]
                    && s.drop_first()[y] == s[y + 1]);
        }
        assert(s.drop_first()[i - 1] == s[i]);
        lemma_live_get_at(s.drop_first(), name, i - 1);
    }
}

/// The roster of live, non-replay sensors.
pub struct SourceRoster {
    live: Vec<(String, i64)>,
}

impl View for SourceRoster {
    type V = LiveMap;

    closed spec fn view(&self) -> LiveMap {
        self.live.deep_view()
    }
}

/// How the deep view of the live vector reads off its elements.
proof fn lemma_live_deep(v: &Vec<(String, i64)>)
    ensures
        v.deep_view().len() == v@.len(),
        forall|i: int| 0 <= i < v@.len() ==> v.deep_view()[i] == (v@[i].0@, v@[i].1),
{
    assert forall|i: int| 0 <= i < v@.len() implies v.deep_view()[i] == (
        v@[i].0@,
        v@[i].1,
    ) by {
        assert(v@[i].0.deep_view() == v@[i].0@);
    }
}

impl SourceRoster {
    pub open spec fn wf(self) -> bool {
        live_unique(self@)
    }

    /// Whether a sensor is in the live roster.
    pub open spec fn is_live(self, name: Seq<char>) -> bool {
        live_get(self@, name) is Some
    }

    /// An empty roster.
    pub fn new() -> (r: Self)
        ensures
            r.wf(),
            r@ == Seq::<(Seq<char>, i64)>::empty(),
    {
        let r = SourceRoster { live: Vec::new() };
        proof {
            assert(r@ =~= Seq::<(Seq<char>, i64)>::empty());
        }
        r
    }

    /// Whether the given sensor is currently live.
    #[verifier::loop_isolation(false)]
    pub fn contains(&self, name: &String) -> (r: bool)
        requires
            self.wf(),
        ensures
            r == self.is_live(name@),
    {
        proof {
            lemma_live_deep(&self.live);
            lemma_live_get_absent(self@, name@);
        }
        let n = self.live.len();
        let mut i: usize = 0;
        while i < n
            invariant
                i <= n,
                n == self.live@.len(),
                forall|j: int| 0 <= j < i ==> self@[j].0 != name@,
            decreases n - i,
        {
            if self.live[i].0 == *name {
                proof {
                    lemma_live_get_at(self@, name@, i as int);
                }
                return true;
            }
            i += 1;
        }
        false
    }

    /// One connection event.
    ///
    /// The persistent roster takes the sensor's last-seen instant whatever
    /// the event; the live map gains the sensor on a non-replay connect and
    /// loses it on a non-replay disconnect; replay agents never enter it.
    /// The peer layer is to be notified exactly of non-replay events.
    #[verifier::loop_isolation(false)]
    pub fn handle_event(
        &mut self,
        sources_store: &mut RawEventStore,
        source: &String,
        timestamp: i64,
        state: ConnState,
        replay: bool,
    ) -> (notify: bool)
        requires
            old(self).wf(),
            old(sources_store).wf(),
        ensures
            final (self).wf(),
            final (sources_store).wf(),
            final (sources_store)@ == insert_sorted(
                old(sources_store)@,
                encode_utf8(source@),
                ts_bytes(timestamp),
            ),
            notify == !replay,
            replay ==> final (self)@ == old(self)@,
            !replay && state == ConnState::Connected ==> live_get(final (self)@, source@) == Some(
                timestamp,
            ),
            !replay && state == ConnState::Disconnected ==> live_get(
                final (self)@,
                source@,
            ) is None,
            forall|n: Seq<char>|
                n != source@ ==> live_get(final (self)@, n) == live_get(old(self)@, n),
    {
        let sname = source.as_str();
        sources_store.append(sname.as_bytes(), crate::keys::to_be8(timestamp).as_slice());
        proof {
            assert(sname.spec_bytes() == encode_utf8(source@));
        }
        if replay {
            return false;
        }
        let ghost l0 = self@;
        proof {
            lemma_live_deep(&self.live);
        }
        let ghost v0 = self.live@;
        // drop any standing entry for this sensor
        let mut kept: Vec<(String, i64)> = Vec::new();
        let n = self.live.len();
        proof {
            assert(kept.deep_view() =~= Seq::<(Seq<char>, i64)>::empty());
        }
        let mut i: usize = 0;
        while i < n
            invariant
                i <= n,
                kept@.len() <= i,
                forall|j: int|
                    0 <= j < kept@.len() ==> (#[trigger] kept@[j]).0@ != source@,
                forall|nm: Seq<char>|
                    nm != source@ ==> live_get(kept.deep_view(), nm) == live_get(
                        l0.take(i as int),
                        nm,
                    ),
                live_unique(kept.deep_view()),
                forall|j: int, m: int|
                    0 <= j < kept@.len() && i <= m < n ==> (#[trigger] kept@[j]).0@ != (
                    #[trigger] l0[m]).0,
            decreases n - i,
        {
            proof {
                assert(l0[i as int] == (v0[i as int].0@, v0[i as int].1));
                assert(l0.take(i + 1) =~= l0.take(i as int).push(l0[i as int]));
            }
            let ghost kd0 = kept.deep_view();
            let e = &self.live[i];
            if !(e.0 == *source) {
                let pair = (e.0.clone(), e.1);
                proof {
                    assert(pair.0@ == l0[i as int].0);
                }
                let ghost kv0 = kept@;
                proof {
                    lemma_live_deep(&kept);
                }
                kept.push(pair);
                proof {
                    lemma_live_deep(&kept);
                    assert forall|j: int|
                        0 <= j < kept@.len() implies kept.deep_view()[j] == kd0.push(
                        l0[i as int],
                    )[j] by {
                        if j < kept@.len() - 1 {
                            assert(kept@[j] == kv0[j]);
                            assert(kd0[j] == (kv0[j].0@, kv0[j].1));
                        }
                    }
                    assert(kept.deep_view() =~= kd0.push(l0[i as int]));
                    assert forall|nm: Seq<char>|
                        nm != source@ implies live_get(kept.deep_view(), nm) == live_get(
                        l0.take(i + 1),
                        nm,
                    ) by {
                        if nm == l0[i as int].0 {
                            lemma_live_get_snoc_self(kd0, l0[i as int]);
                            lemma_live_get_snoc_self(l0.take(i as int), l0[i as int]);
                        } else {
                            lemma_live_get_push(kd0, l0[i as int], nm);
                            lemma_live_get_push(l0.take(i as int), l0[i as int], nm);
                        }
                    }
                }
            } else {
                proof {
                    assert(l0[i as int].0 == source@);
                    assert forall|nm: Seq<char>|
                        nm != source@ implies live_get(kept.deep_view(), nm) == live_get(
                        l0.take(i + 1),
                        nm,
                    ) by {
                        lemma_live_get_push(l0.take(i as int), l0[i as int], nm);
                    }
                }
            }
            i += 1;
        }
        proof {
            assert(l0.take(n as int) =~= l0);
            assert(forall|nm: Seq<char>|
                nm != source@ ==> live_get(kept.deep_view(), nm) == live_get(l0, nm));
        }
        let ghost kfinal = kept.deep_view();
        match state {
            ConnState::Connected => {
                let ghost kd0 = kept.deep_view();
                let ghost kv0 = kept@;
                proof {
                    lemma_live_deep(&kept);
                }
                kept.push((source.clone(), timestamp));
                proof {
                    lemma_live_deep(&kept);
                    assert forall|j: int|
                        0 <= j < kept@.len() implies kept.deep_view()[j] == kd0.push(
                        (source@, timestamp),
                    )[j] by {
                        if j < kept@.len() - 1 {
                            assert(kept@[j] == kv0[j]);
                            assert(kd0[j] == (kv0[j].0@, kv0[j].1));
                        }
                    }
                    assert(kept.deep_view() =~= kd0.push((source@, timestamp)));
                    lemma_live_get_snoc_self(kd0, (source@, timestamp));
                    assert forall|nm: Seq<char>|
                        nm != source@ implies live_get(kept.deep_view(), nm) == live_get(
                        kd0,
                        nm,
                    ) by {
                        lemma_live_get_push(kd0, (source@, timestamp), nm);
                    }
                    assert(live_unique(kept.deep_view())) by {
                        let kd = kept.deep_view();
                        assert forall|x: int, y: int|
                            0 <= x < y < kd.len() implies kd[x].0 != kd[y].0 by {
                            if y == kd.len() - 1 {
                                assert(kd[x] == kd0[x]);
                                assert(kd[y].0 == source@);
                            } else {
                                assert(kd[x] == kd0[x] && kd[y] == kd0[y]);
                            }
                        }
                    }
                }
                self.live = kept;
            },
            ConnState::Disconnected => {
                proof {
                    lemma_live_get_absent(kept.deep_view(), source@);
                }
                self.live = kept;
            },
        }
        true
    }
}

/// Whether some live sensor's name encodes to the given store key.
pub open spec fn is_live_key(l: LiveMap, k: Seq<u8>) -> bool {
    exists|i: int| 0 <= i < l.len() && encode_utf8((#[trigger] l[i]).0) == k
}

spec fn is_live_key_upto(l: LiveMap, n: int, k: Seq<u8>) -> bool {
    exists|i: int| 0 <= i < n && encode_utf8((#[trigger] l[i]).0) == k
}

proof fn lemma_live_get_refresh(s1: LiveMap, s2: LiveMap, now: i64, n: Seq<char>)
    requires
        s1.len() == s2.len(),
        forall|j: int| 0 <= j < s1.len() ==> #[trigger] s2[j] == (s1[j].0, now),
    ensures
        live_get(s2, n) == match live_get(s1, n) {
            Some(_) => Some(now),
            None => None::<i64>,
        },
    decreases s1.len(),
{
    if s1.len() > 0 {
        assert(s2[0] == (s1[0].0, now));
        assert(forall|j: int|
            0 <= j < s1.drop_first().len() ==> #[trigger] s2.drop_first()[j] == (
            s1.drop_first()[j].0, now)) by {
            assert(forall|j: int|
                0 <= j < s1.drop_first().len() ==> s1.drop_first()[j] == s1[j + 1]
                    && s2.drop_first()[j] == s2[j + 1]);
        }
        lemma_live_get_refresh(s1.drop_first(), s2.drop_first(), now, n);
    }
}

impl SourceRoster {
    /// The periodic refresh: every live sensor's last-seen instant becomes
    /// `now`, in the live map and in the persistent roster alike; nothing
    /// else in the store moves.
    #[verifier::loop_isolation(false)]
    pub fn refresh_all(&mut self, sources_store: &mut RawEventStore, now: i64)
        requires
            old(self).wf(),
            old(sources_store).wf(),
        ensures
            final (self).wf(),
            final (sources_store).wf(),
            forall|n: Seq<char>|
                #[trigger] live_get(final (self)@, n) == match live_get(old(self)@, n) {
                    Some(_) => Some(now),
                    None => None::<i64>,
                },
            forall|k: Seq<u8>|
                #[trigger] spec_get(final (sources_store)@, k) == if is_live_key(old(self)@, k) {
                    Some(ts_bytes(now))
                } else {
                    spec_get(old(sources_store)@, k)
                },
    {
        let ghost l0 = self@;
        let ghost st0 = sources_store@;
        proof {
            lemma_live_deep(&self.live);
        }
        let ghost v0 = self.live@;
        let mut refreshed: Vec<(String, i64)> = Vec::new();
        let n = self.live.len();
        let mut i: usize = 0;
        while i < n
            invariant
                i <= n,
                n == self.live@.len(),
                self@ == l0,
                self.live@ == v0,
                l0.len() == v0.len(),
                forall|j: int|
                    0 <= j < v0.len() ==> l0[j] == ((#[trigger] v0[j]).0@, v0[j].1),
                refreshed@.len() == i,
                forall|j: int|
                    0 <= j < i ==> refreshed.deep_view()[j] == ((#[trigger] l0[j]).0, now),
                refreshed.deep_view().len() == i,
                sources_store.wf(),
                forall|k: Seq<u8>|
                    #[trigger] spec_get(sources_store@, k) == if is_live_key_upto(
                        l0,
                        i as int,
                        k,
                    ) {
                        Some(ts_bytes(now))
                    } else {
                        spec_get(st0, k)
                    },
            decreases n - i,
        {
            proof {
                assert(l0[i as int] == (v0[i as int].0@, v0[i as int].1));
            }
            let ghost before = sources_store@;
            let e = &self.live[i];
            let sname = e.0.as_str();
            sources_store.append(sname.as_bytes(), crate::keys::to_be8(now).as_slice());
            proof {
                assert(sname.spec_bytes() == encode_utf8(l0[i as int].0));
                assert forall|k: Seq<u8>|
                    #[trigger] spec_get(sources_store@, k) == if is_live_key_upto(
                        l0,
                        i + 1,
                        k,
                    ) {
                        Some(ts_bytes(now))
                    } else {
                        spec_get(st0, k)
                    } by {
                    if k == encode_utf8(l0[i as int].0) {
                        assert(is_live_key_upto(l0, i + 1, k));
                    } else {
                        assert(spec_get(sources_store@, k) == spec_get(before, k));
                        if is_live_key_upto(l0, i as int, k) {
                            let w = choose|w: int|
                                0 <= w < i && encode_utf8((#[trigger] l0[w]).0) == k;
                            assert(is_live_key_upto(l0, i + 1, k));
                        } else {
                            if is_live_key_upto(l0, i + 1, k) {
                                let w = choose|w: int|
                                    0 <= w < i + 1 && encode_utf8((#[trigger] l0[w]).0) == k;
                                assert(w < i);
                            }
                        }
                    }
                }
            }
            let ghost rd0 = refreshed.deep_view();
            let ghost rv0 = refreshed@;
            proof {
                lemma_live_deep(&refreshed);
            }
            refreshed.push((e.0.clone(), now));
            proof {
                lemma_live_deep(&refreshed);
                assert forall|j: int|
                    0 <= j < refreshed@.len() implies refreshed.deep_view()[j] == (
                (#[trigger] l0[j]).0, now) by {
                    if j < refreshed@.len() - 1 {
                        assert(refreshed@[j] == rv0[j]);
                        assert(rd0[j] == (rv0[j].0@, rv0[j].1));
                    }
                }
            }
            i += 1;
        }
        self.live = refreshed;
        proof {
            assert forall|nm: Seq<char>|
                #[trigger] live_get(self@, nm) == match live_get(l0, nm) {
                    Some(_) => Some(now),
                    None => None::<i64>,
                } by {
                lemma_live_get_refresh(l0, self@, now, nm);
            }
            assert forall|x: int, y: int| 0 <= x < y < self@.len() implies self@[x].0
                != self@[y].0 by {
                assert(self@[x] == (l0[x].0, now) && self@[y] == (l0[y].0, now));
            }
            assert forall|k: Seq<u8>| #[trigger] is_live_key_upto(l0, n as int, k)
                == is_live_key(l0, k) by {}
        }
    }
}

proof fn lemma_live_get_push(s: LiveMap, e: (Seq<char>, i64), nm: Seq<char>)
    requires
        nm != e.0,
    ensures
        live_get(s.push(e), nm) == live_get(s, nm),
    decreases s.len(),
{
    if s.len() == 0 {
        assert(s.push(e)[0] == e);
        assert(s.push(e).drop_first() =~= s);
    } else {
        assert(s.push(e)[0] == s[0]);
        assert(s.push(e).drop_first() =~= s.drop_first().push(e));
        lemma_live_get_push(s.drop_first(), e, nm);
    }
}

proof fn lemma_live_get_snoc_self(s: LiveMap, e: (Seq<char>, i64))
    requires
        forall|i: int| 0 <= i < s.len() ==> (#[trigger] s[i]).0 != e.0,
    ensures
        live_get(s.push(e), e.0) == Some(e.1),
    decreases s.len(),
{
    if s.len() == 0 {
        assert(s.push(e)[0] == e);
    } else {
        assert(s.push(e)[0] == s[0]);
        assert(s[0].0 != e.0);
        assert(s.push(e).drop_first() =~= s.drop_first().push(e));
        assert(forall|i: int| 0 <= i < s.drop_first().len() ==> s.drop_first()[i] == s[i + 1]);
        lemma_live_get_snoc_self(s.drop_first(), e);
    }
}

} // verus!
