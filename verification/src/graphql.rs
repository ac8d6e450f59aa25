//! The query layer's compute core.
//!
//! The GraphQL surface itself is a consumer of the store's range scans and
//! of the key codec; what stands here is everything it computes: the
//! per-source scans, the pagination windows over the generic log, and the
//! conversions into the shapes the API hands out.
use vstd::prelude::*;
use vstd::string::StringSliceAdditionalSpecFns;

use crate::codec::{base64_of, log_decodable, log_fields};
use crate::ingestion::{Conn, DnsConn, HttpConn, Log, RdpConn};
use crate::keys::{lower_bound_spec, upper_bound_spec};
use crate::storage::{range_spec, RawEventStore};

verus! {

/// The root query object.
pub struct Query;

/// A connection event as the query API hands it out.
pub struct ConnRawEvent {
    pub orig_addr: String,
    pub resp_addr: String,
    pub orig_port: u16,
    pub resp_port: u16,
    pub proto: u8,
    pub duration: i64,
    pub orig_bytes: u64,
    pub resp_bytes: u64,
    pub orig_pkts: u64,
    pub resp_pkts: u64,
}

/// A DNS event as the query API hands it out.
pub struct DnsRawEvent {
    pub orig_addr: String,
    pub resp_addr: String,
    pub orig_port: u16,
    pub resp_port: u16,
    pub proto: u8,
    pub query: String,
}

/// An HTTP event as the query API hands it out.
pub struct HttpRawEvent {
    pub orig_addr: String,
    pub resp_addr: String,
    pub orig_port: u16,
    pub resp_port: u16,
    pub method: String,
    pub host: String,
    pub uri: String,
    pub referrer: String,
    pub user_agent: String,
    pub status_code: u16,
}

/// An RDP event as the query API hands it out.
pub struct RdpRawEvent {
    pub orig_addr: String,
    pub resp_addr: String,
    pub orig_port: u16,
    pub resp_port: u16,
    pub cookie: String,
}

impl From<Conn> for ConnRawEvent {
    fn from(c: Conn) -> ConnRawEvent {
        ConnRawEvent {
            orig_addr: c.orig_addr,
            resp_addr: c.resp_addr,
            orig_port: c.orig_port,
            resp_port: c.resp_port,
            proto: c.proto,
            duration: c.duration,
            orig_bytes: c.orig_bytes,
            resp_bytes: c.resp_bytes,
            orig_pkts: c.orig_pkts,
            resp_pkts: c.resp_pkts,
        }
    }
}

impl vstd::std_specs::convert::FromSpecImpl<Conn> for ConnRawEvent {
    open spec fn obeys_from_spec() -> bool {
        true
    }

    open spec fn from_spec(c: Conn) -> ConnRawEvent {
        ConnRawEvent {
            orig_addr: c.orig_addr,
            resp_addr: c.resp_addr,
            orig_port: c.orig_port,
            resp_port: c.resp_port,
            proto: c.proto,
            duration: c.duration,
            orig_bytes: c.orig_bytes,
            resp_bytes: c.resp_bytes,
            orig_pkts: c.orig_pkts,
            resp_pkts: c.resp_pkts,
        }
    }
}

impl From<DnsConn> for DnsRawEvent {
    fn from(d: DnsConn) -> DnsRawEvent {
        DnsRawEvent {
            orig_addr: d.orig_addr,
            resp_addr: d.resp_addr,
            orig_port: d.orig_port,
            resp_port: d.resp_port,
            proto: d.proto,
            query: d.query,
        }
    }
}

impl vstd::std_specs::convert::FromSpecImpl<DnsConn> for DnsRawEvent {
    open spec fn obeys_from_spec() -> bool {
        true
    }

    open spec fn from_spec(d: DnsConn) -> DnsRawEvent {
        DnsRawEvent {
            orig_addr: d.orig_addr,
            resp_addr: d.resp_addr,
            orig_port: d.orig_port,
            resp_port: d.resp_port,
            proto: d.proto,
            query: d.query,
        }
    }
}

impl From<HttpConn> for HttpRawEvent {
    fn from(h: HttpConn) -> HttpRawEvent {
        HttpRawEvent {
            orig_addr: h.orig_addr,
            resp_addr: h.resp_addr,
            orig_port: h.orig_port,
            resp_port: h.resp_port,
            method: h.method,
            host: h.host,
            uri: h.uri,
            referrer: h.referrer,
            user_agent: h.user_agent,
            status_code: h.status_code,
        }
    }
}

impl vstd::std_specs::convert::FromSpecImpl<HttpConn> for HttpRawEvent {
    open spec fn obeys_from_spec() -> bool {
        true
    }

    open spec fn from_spec(h: HttpConn) -> HttpRawEvent {
        HttpRawEvent {
            orig_addr: h.orig_addr,
            resp_addr: h.resp_addr,
            orig_port: h.orig_port,
            resp_port: h.resp_port,
            method: h.method,
            host: h.host,
            uri: h.uri,
            referrer: h.referrer,
            user_agent: h.user_agent,
            status_code: h.status_code,
        }
    }
}

impl From<RdpConn> for RdpRawEvent {
    fn from(r: RdpConn) -> RdpRawEvent {
        RdpRawEvent {
            orig_addr: r.orig_addr,
            resp_addr: r.resp_addr,
            orig_port: r.orig_port,
            resp_port: r.resp_port,
            cookie: r.cookie,
        }
    }
}

impl vstd::std_specs::convert::FromSpecImpl<RdpConn> for RdpRawEvent {
    open spec fn obeys_from_spec() -> bool {
        true
    }

    open spec fn from_spec(r: RdpConn) -> RdpRawEvent {
        RdpRawEvent {
            orig_addr: r.orig_addr,
            resp_addr: r.resp_addr,
            orig_port: r.orig_port,
            resp_port: r.resp_port,
            cookie: r.cookie,
        }
    }
}

/// A generic-log event as the query API hands it out: its raw line in
/// base64.
pub struct LogRawEvent {
    pub log: String,
}

impl LogRawEvent {
    /// Encodes a log body for the API.
    pub fn from_log(l: Log) -> (r: LogRawEvent)
        ensures
            r.log@ == base64_of(l.log.1@),
    {
        let (_, body) = l.log;
        LogRawEvent { log: crate::codec::base64_encode(body.as_slice()) }
    }
}

/// How a pagination request walks the range: from the start, from the end,
/// or from a cursor.
pub enum PagingType {
    First(usize),
    AfterFirst(String, usize),
    Last(usize),
    BeforeLast(String, usize),
}

/// A pagination request that names neither a page size from the start nor
/// one from the end.
#[derive(Debug)]
pub struct PagingTypeError;

/// Classifies a pagination request: `first` — with its optional `after`
/// cursor — takes precedence over `last` with its optional `before`
/// cursor; a request with neither is refused.
pub fn check_paging_type(
    after: Option<String>,
    before: Option<String>,
    first: Option<usize>,
    last: Option<usize>,
) -> (r: Result<PagingType, PagingTypeError>)
    ensures
        first matches Some(v) ==> (after matches Some(c) ==> (r matches Ok(
            PagingType::AfterFirst(c2, v2),
        ) && c2 == c && v2 == v)),
        first matches Some(v) ==> (after is None ==> (r matches Ok(PagingType::First(v2)) && v2
            == v)),
        first is None ==> (last matches Some(v) ==> (before matches Some(c) ==> (r matches Ok(
            PagingType::BeforeLast(c2, v2),
        ) && c2 == c && v2 == v))),
        first is None ==> (last matches Some(v) ==> (before is None ==> (r matches Ok(
            PagingType::Last(v2),
        ) && v2 == v))),
        first is None && last is None ==> r is Err,
{
    if let Some(val) = first {
        if let Some(cursor) = after {
            return Ok(PagingType::AfterFirst(cursor, val));
        }
        return Ok(PagingType::First(val));
    }
    if let Some(val) = last {
        if let Some(cursor) = before {
            return Ok(PagingType::BeforeLast(cursor, val));
        }
        return Ok(PagingType::Last(val));
    }
    Err(PagingTypeError)
}

/// The scan window of one source: every key of the form `source NUL …`.
pub open spec fn source_range(store: crate::storage::Entries, source: Seq<u8>) -> crate::storage::Entries {
    range_spec(store, lower_bound_spec(source, None), upper_bound_spec(source, None))
}

/// Every stored entry of one source, in ascending timestamp order.
pub fn src_raw_events(store: &RawEventStore, source: &str) -> (r: Vec<(Vec<u8>, Vec<u8>)>)
    requires
        store.wf(),
    ensures
        r.deep_view() == source_range(store@, source.spec_bytes()),
{
    let from = crate::keys::lower_bound_key(source.as_bytes(), None);
    let to = crate::keys::upper_bound_key(source.as_bytes(), None);
    store.scan_range(from.as_slice(), to.as_slice(), crate::storage::Direction::Forward)
}

/// A pagination cursor that is not the base64 text of any key.
#[derive(Debug)]
pub struct InvalidCursor;

/// The scan window of one source and log kind: every key of the form
/// `source NUL kind NUL …`.
pub open spec fn log_range(
    store: crate::storage::Entries,
    source: Seq<u8>,
    kind: Seq<u8>,
) -> crate::storage::Entries {
    range_spec(
        store,
        lower_bound_spec(source + seq![0u8] + kind, None),
        upper_bound_spec(source + seq![0u8] + kind, None),
    )
}

/// The key a pagination cursor names; meaningful only where some key's
/// base64 text equals the cursor.
pub open spec fn cursor_key(c: Seq<char>) -> Seq<u8> {
    choose|k: Seq<u8>| c == base64_of(k)
}

/// Whether a pagination cursor names a key at all.
pub open spec fn cursor_valid(c: Seq<char>) -> bool {
    exists|k: Seq<u8>| c == #[trigger] base64_of(k)
}

/// The page a pagination request selects out of an ascending range, with
/// its two flags: whether the connection reports a previous page and a
/// next page. A page taken from the start reports a previous page as soon
/// as the range holds any event at all, and symmetrically for one taken
/// from the end; a cursor that names no key selects nothing.
pub open spec fn page_window(range: crate::storage::Entries, paging: PagingType) -> Option<
    (crate::storage::Entries, bool, bool),
> {
    match paging {
        PagingType::First(n) => Some(
            (
                range.take(if n <= range.len() {
                    n as int
                } else {
                    range.len() as int
                }),
                range.len() > 0,
                range.len() > n,
            ),
        ),
        PagingType::AfterFirst(c, n) => if cursor_valid(c@) {
            let sub = crate::storage::entries_where(
                range,
                crate::storage::key_gt_pred(cursor_key(c@)),
            );
            Some(
                (
                    sub.take(if n <= sub.len() {
                        n as int
                    } else {
                        sub.len() as int
                    }),
                    range.len() > 0,
                    sub.len() > n,
                ),
            )
        } else {
            None
        },
        PagingType::Last(n) => Some(
            (
                range.skip(if n <= range.len() {
                    range.len() - n as int
                } else {
                    0
                }),
                range.len() > n,
                range.len() > 0,
            ),
        ),
        PagingType::BeforeLast(c, n) => if cursor_valid(c@) {
            let sub = crate::storage::entries_where(
                range,
                crate::storage::key_lt_pred(cursor_key(c@)),
            );
            Some(
                (
                    sub.skip(if n <= sub.len() {
                        sub.len() - n as int
                    } else {
                        0
                    }),
                    sub.len() > n,
                    range.len() > 0,
                ),
            )
        } else {
            None
        },
    }
}

/// Copies one window of scanned entries.
#[verifier::loop_isolation(false)]
fn copy_window(v: &Vec<(Vec<u8>, Vec<u8>)>, start: usize, end: usize) -> (r: Vec<
    (Vec<u8>, Vec<u8>),
>)
    requires
        start <= end <= v@.len(),
    ensures
        r.deep_view() == v.deep_view().subrange(start as int, end as int),
{
    proof {
        crate::storage::lemma_deep_is_map(v);
    }
    let mut out: Vec<(Vec<u8>, Vec<u8>)> = Vec::new();
    let mut i: usize = start;
    while i < end
        invariant
            start <= i <= end,
            out@.len() == i - start,
            forall|j: int|
                0 <= j < out@.len() ==> (#[trigger] out@[j]).0@ == v.deep_view()[start + j].0
                    && out@[j].1@ == v.deep_view()[start + j].1,
        decreases end - i,
    {
        let e = &v[i];
        out.push(
            (
                vstd::slice::slice_to_vec(e.0.as_slice()),
                vstd::slice::slice_to_vec(e.1.as_slice()),
            ),
        );
        i += 1;
    }
    proof {
        crate::storage::lemma_deep_is_map(&out);
        assert(out.deep_view() =~= v.deep_view().subrange(start as int, end as int));
    }
    out
}

/// Keeps the scanned entries on one side of a cursor key.
#[verifier::loop_isolation(false)]
fn filter_cursor(v: &Vec<(Vec<u8>, Vec<u8>)>, c: &[u8], after: bool) -> (r: Vec<
    (Vec<u8>, Vec<u8>),
>)
    ensures
        after ==> r.deep_view() == crate::storage::entries_where(
            v.deep_view(),
            crate::storage::key_gt_pred(c@),
        ),
        !after ==> r.deep_view() == crate::storage::entries_where(
            v.deep_view(),
            crate::storage::key_lt_pred(c@),
        ),
{
    proof {
        crate::storage::lemma_deep_is_map(v);
    }
    let ghost p = if after {
        crate::storage::key_gt_pred(c@)
    } else {
        crate::storage::key_lt_pred(c@)
    };
    let ghost s0 = v.deep_view();
    let mut out: Vec<(Vec<u8>, Vec<u8>)> = Vec::new();
    let n = v.len();
    proof {
        assert(s0.take(0) =~= Seq::<(Seq<u8>, Seq<u8>)>::empty());
        assert(out.deep_view() =~= crate::storage::entries_where(s0.take(0), p));
    }
    let mut i: usize = 0;
    while i < n
        invariant
            i <= n,
            n == v@.len(),
            out.deep_view() == crate::storage::entries_where(s0.take(i as int), p),
        decreases n - i,
    {
        proof {
            crate::storage::lemma_entries_where_push(s0.take(i as int), p, s0[i as int]);
            assert(s0.take(i + 1) =~= s0.take(i as int).push(s0[i as int]));
        }
        let ghost od0 = out.deep_view();
        let e = &v[i];
        let keep = if after {
            crate::order::lt_bytes(c, e.0.as_slice())
        } else {
            crate::order::lt_bytes(e.0.as_slice(), c)
        };
        if keep {
            let pair = (
                vstd::slice::slice_to_vec(e.0.as_slice()),
                vstd::slice::slice_to_vec(e.1.as_slice()),
            );
            proof {
                assert((pair.0@, pair.1@) == s0[i as int]);
            }
            let ghost pv = (pair.0@, pair.1@);
            let ghost ov0 = out@;
            proof {
                crate::storage::lemma_deep_is_map(&out);
            }
            out.push(pair);
            proof {
                crate::storage::lemma_deep_is_map(&out);
                assert forall|j: int|
                    0 <= j < out@.len() implies out.deep_view()[j] == od0.push(pv)[j] by {
                    if j < out@.len() - 1 {
                        assert(out@[j] == ov0[j]);
                        assert(od0[j] == (ov0[j].0@, ov0[j].1@));
                    }
                }
                assert(out.deep_view() =~= od0.push(pv));
            }
        } else {
            proof {
                assert(!p(s0[i as int]));
            }
        }
        i += 1;
    }
    proof {
        assert(s0.take(n as int) =~= s0);
    }
    out
}

/// Reads the key a pagination cursor names. The decoder alone does not
/// settle whether the text is the canonical base64 of its result, so the
/// result is encoded back and held against the cursor: only the encoder's
/// own text for some key passes.
fn decode_cursor(c: &String) -> (r: Option<Vec<u8>>)
    ensures
        r matches Some(k) ==> cursor_valid(c@) && cursor_key(c@) == k@,
        r is None ==> !cursor_valid(c@),
{
    match crate::codec::base64_decode(c.as_str()) {
        Some(k) => {
            let reencoded = crate::codec::base64_encode(k.as_slice());
            if reencoded == *c {
                proof {
                    assert(c@ == base64_of(k@));
                    assert(cursor_valid(c@));
                    // the decoder names at most one preimage, so the chosen
                    // key is this one
                    assert(cursor_key(c@) == k@) by {
                        let w = choose|w: Seq<u8>| c@ == base64_of(w);
                    }
                }
                Some(k)
            } else {
                proof {
                    assert(!cursor_valid(c@)) by {
                        if cursor_valid(c@) {
                            let w = choose|w: Seq<u8>| c@ == base64_of(w);
                            assert(w == k@);
                        }
                    }
                }
                None
            }
        },
        None => {
            proof {
                assert(!cursor_valid(c@));
            }
            None
        },
    }
}

/// Takes a page out of scanned entries per the request, with the
/// previous- and next-page flags.
#[verifier::loop_isolation(false)]
fn window_of(scan: Vec<(Vec<u8>, Vec<u8>)>, paging: PagingType) -> (r: Result<
    (Vec<(Vec<u8>, Vec<u8>)>, bool, bool),
    InvalidCursor,
>)
    ensures
        r matches Ok(out) ==> page_window(scan.deep_view(), paging) matches Some(w) && (
        out.0.deep_view(), out.1, out.2) == w,
        r is Err ==> page_window(scan.deep_view(), paging) is None,
{
    proof {
        crate::storage::lemma_deep_is_map(&scan);
    }
    match paging {
        PagingType::First(n) => {
            let len = scan.len();
            let take = if n <= len {
                n
            } else {
                len
            };
            let out = copy_window(&scan, 0, take);
            proof {
                assert(out.deep_view() =~= scan.deep_view().take(take as int));
            }
            Ok((out, len > 0, len > n))
        },
        PagingType::AfterFirst(c, n) => {
            match decode_cursor(&c) {
                Some(k) => {
                    let sub = filter_cursor(&scan, k.as_slice(), true);
                    let len = sub.len();
                    let take = if n <= len {
                        n
                    } else {
                        len
                    };
                    let out = copy_window(&sub, 0, take);
                    proof {
                        assert(out.deep_view() =~= sub.deep_view().take(take as int));
                    }
                    Ok((out, scan.len() > 0, len > n))
                },
                None => Err(InvalidCursor),
            }
        },
        PagingType::Last(n) => {
            let len = scan.len();
            let start = if n <= len {
                len - n
            } else {
                0
            };
            let out = copy_window(&scan, start, len);
            proof {
                assert(out.deep_view() =~= scan.deep_view().skip(start as int));
            }
            Ok((out, len > n, len > 0))
        },
        PagingType::BeforeLast(c, n) => {
            match decode_cursor(&c) {
                Some(k) => {
                    let sub = filter_cursor(&scan, k.as_slice(), false);
                    let len = sub.len();
                    let start = if n <= len {
                        len - n
                    } else {
                        0
                    };
                    let out = copy_window(&sub, start, len);
                    proof {
                        assert(out.deep_view() =~= sub.deep_view().skip(start as int));
                    }
                    Ok((out, len > n, scan.len() > 0))
                },
                None => Err(InvalidCursor),
            }
        },
    }
}

/// One page of the generic-log events of one source and log kind, oldest
/// first, with the previous- and next-page flags.
pub fn log_events(
    store: &RawEventStore,
    source: &str,
    kind: &str,
    paging: PagingType,
) -> (r: Result<(Vec<(Vec<u8>, Vec<u8>)>, bool, bool), InvalidCursor>)
    requires
        store.wf(),
    ensures
        r matches Ok(out) ==> page_window(
            log_range(store@, source.spec_bytes(), kind.spec_bytes()),
            paging,
        ) matches Some(w) && (out.0.deep_view(), out.1, out.2) == w,
        r is Err ==> page_window(
            log_range(store@, source.spec_bytes(), kind.spec_bytes()),
            paging,
        ) is None,
{
    let mut prefix = vstd::slice::slice_to_vec(source.as_bytes());
    prefix.push(0u8);
    let mut kb = vstd::slice::slice_to_vec(kind.as_bytes());
    prefix.append(&mut kb);
    proof {
        assert(prefix@ =~= source.spec_bytes() + seq![0u8] + kind.spec_bytes());
    }
    let from = crate::keys::lower_bound_key(prefix.as_slice(), None);
    let to = crate::keys::upper_bound_key(prefix.as_slice(), None);
    let scan = store.scan_range(
        from.as_slice(),
        to.as_slice(),
        crate::storage::Direction::Forward,
    );
    window_of(scan, paging)
}

/// A half-open interval of instants, either end optional.
#[derive(Clone, Copy)]
pub struct TimeRange {
    pub start: Option<i64>,
    pub end: Option<i64>,
}

/// What a packet query asks for: one sensor, one request instant, and an
/// optional interval of packet instants.
pub struct PacketFilter {
    pub source: String,
    pub request_time: i64,
    pub packet_time: Option<TimeRange>,
}

impl PacketFilter {
    /// The leading key segment the filter scans under.
    pub fn get_start_key(&self) -> (r: &str)
        ensures
            r@ == self.source@,
    {
        self.source.as_str()
    }

    /// The middle key segment: the request instant's stored bytes.
    pub fn get_mid_key(&self) -> (r: Option<Vec<u8>>)
        ensures
            r matches Some(v) && v@ == crate::keys::ts_bytes(self.request_time),
    {
        Some(crate::keys::to_be8(self.request_time))
    }

    /// The packet-instant bounds of the scan.
    pub fn get_range_end_key(&self) -> (r: (Option<i64>, Option<i64>))
        ensures
            r == match self.packet_time {
                Some(t) => (t.start, t.end),
                None => (None::<i64>, None::<i64>),
            },
    {
        if let Some(time) = &self.packet_time {
            (time.start, time.end)
        } else {
            (None, None)
        }
    }
}

/// The start key of a packet scan: the sensor, the request instant, and
/// the inclusive packet-instant bound.
pub open spec fn packet_from_key(f: PacketFilter) -> Seq<u8> {
    let base = crate::ingest::str_bytes(f.source) + seq![0u8] + crate::keys::ts_bytes(
        f.request_time,
    );
    match f.packet_time {
        Some(t) => match t.start {
            Some(s) => lower_bound_spec(base, Some(s)),
            None => base + seq![0u8],
        },
        None => base + seq![0u8],
    }
}

/// The end key of a packet scan: the exclusive packet-instant bound, or
/// the whole request's key space.
pub open spec fn packet_to_key(f: PacketFilter) -> Seq<u8> {
    let base = crate::ingest::str_bytes(f.source) + seq![0u8] + crate::keys::ts_bytes(
        f.request_time,
    );
    match f.packet_time {
        Some(t) => upper_bound_spec(base, t.end),
        None => upper_bound_spec(base, None),
    }
}

/// The packet queries.
pub struct PacketQuery;

impl PacketQuery {
    /// The stored packets one filter selects: exactly the entries of the
    /// sensor and request instant whose packet instant lies in the asked
    /// interval, oldest first.
    pub fn packets(&self, store: &RawEventStore, filter: &PacketFilter) -> (r: Vec<
        (Vec<u8>, Vec<u8>),
    >)
        requires
            store.wf(),
        ensures
            r.deep_view() == range_spec(store@, packet_from_key(*filter), packet_to_key(*filter)),
    {
        let key_builder = crate::keys::StorageKey::builder().start_key(
            filter.get_start_key(),
        ).mid_key(filter.get_mid_key());
        let ghost base = crate::ingest::str_bytes(filter.source) + seq![0u8]
            + crate::keys::ts_bytes(filter.request_time);
        proof {
            assert(key_builder@ =~= base);
        }
        let bounds = filter.get_range_end_key();
        let from_builder = crate::keys::StorageKeyBuilder::duplicate(&key_builder);
        let from_key = from_builder.lower_closed_bound_end_key(bounds.0).build().key();
        let to_key = key_builder.upper_open_bound_end_key(bounds.1).build().key();
        proof {
            assert(from_key@ == packet_from_key(*filter)) by {
                match filter.packet_time {
                    Some(t) => {
                        match t.start {
                            Some(s) => {
                                if s >= 1 {
                                } else {
                                    assert(lower_bound_spec(base, Some(s)) =~= base + seq![0u8]);
                                }
                            },
                            None => {},
                        }
                    },
                    None => {},
                }
            }
            assert(to_key@ == packet_to_key(*filter));
        }
        store.scan_range(
            from_key.as_slice(),
            to_key.as_slice(),
            crate::storage::Direction::Forward,
        )
    }
}

/// A stored packet as the query API hands it out: the request and packet
/// instants read back from the key, and the capture bytes in base64.
pub struct Packet {
    pub request_time: i64,
    pub packet_time: i64,
    pub packet: String,
}

impl Packet {
    /// Reads a packet out of its storage key and stored bytes; a key too
    /// short to carry both instants is refused.
    pub fn from_key_value(key: &[u8], packet_bytes: &[u8]) -> (r: Option<Packet>)
        ensures
            r is Some <==> key@.len() >= 17,
            r matches Some(p) ==> {
                &&& crate::keys::ts_bytes(p.request_time) == key@.subrange(
                    key@.len() - 17,
                    key@.len() - 9,
                )
                &&& crate::keys::ts_bytes(p.packet_time) == key@.skip(key@.len() - 8)
                &&& p.packet@ == crate::codec::std_base64_of(packet_bytes@)
            },
    {
        if key.len() < 17 {
            return None;
        }
        let head = vstd::slice::slice_subrange(key, 0, key.len() - 9);
        let request_time = crate::keys::from_be8(head, key.len() - 17);
        let packet_time = crate::keys::from_be8(key, key.len() - 8);
        proof {
            assert(head@.skip(key@.len() - 17) =~= key@.subrange(
                key@.len() - 17,
                key@.len() - 9,
            ));
        }
        Some(
            Packet {
                request_time,
                packet_time,
                packet: crate::codec::std_base64_encode(packet_bytes),
            },
        )
    }
}

/// The base64 lines a generic-log query answers with: the bodies that
/// carry the asked log kind, in stored order; meaningful where every
/// scanned body holds exactly one serialised log body.
pub open spec fn log_b64s(s: crate::storage::Entries, kind: Seq<char>) -> Seq<Seq<char>>
    decreases s.len(),
{
    if s.len() == 0 {
        Seq::empty()
    } else {
        let rest = log_b64s(s.drop_first(), kind);
        if log_decodable(s[0].1) && log_fields(s[0].1).0 == kind {
            seq![base64_of(log_fields(s[0].1).1)] + rest
        } else {
            rest
        }
    }
}

proof fn lemma_log_b64s_push(s: crate::storage::Entries, e: (Seq<u8>, Seq<u8>), kind: Seq<char>)
    ensures
        log_b64s(s.push(e), kind) == if log_decodable(e.1) && log_fields(e.1).0 == kind {
            log_b64s(s, kind).push(base64_of(log_fields(e.1).1))
        } else {
            log_b64s(s, kind)
        },
    decreases s.len(),
{
    if s.len() == 0 {
        assert(s.push(e)[0] == e);
        assert(s.push(e).drop_first() =~= s);
        if log_decodable(e.1) && log_fields(e.1).0 == kind {
            assert(seq![base64_of(log_fields(e.1).1)] + log_b64s(s, kind) =~= log_b64s(
                s,
                kind,
            ).push(base64_of(log_fields(e.1).1)));
        }
    } else {
        assert(s.push(e)[0] == s[0]);
        assert(s.push(e).drop_first() =~= s.drop_first().push(e));
        lemma_log_b64s_push(s.drop_first(), e, kind);
        if log_decodable(s[0].1) && log_fields(s[0].1).0 == kind {
            if log_decodable(e.1) && log_fields(e.1).0 == kind {
                assert(seq![base64_of(log_fields(s[0].1).1)] + log_b64s(
                    s.drop_first(),
                    kind,
                ).push(base64_of(log_fields(e.1).1)) =~= (seq![
                    base64_of(log_fields(s[0].1).1),
                ] + log_b64s(s.drop_first(), kind)).push(base64_of(log_fields(e.1).1)));
            }
        }
    }
}

/// A stored body that does not hold exactly one serialised log body.
#[derive(Debug)]
pub struct MalformedLogBody;

impl Query {
    /// The stored connection events of one source, as raw entries.
    pub fn conn_raw_events(&self, store: &RawEventStore, source: &str) -> (r: Vec<
        (Vec<u8>, Vec<u8>),
    >)
        requires
            store.wf(),
        ensures
            r.deep_view() == source_range(store@, source.spec_bytes()),
    {
        src_raw_events(store, source)
    }

    /// The stored DNS events of one source, as raw entries.
    pub fn dns_raw_events(&self, store: &RawEventStore, source: &str) -> (r: Vec<
        (Vec<u8>, Vec<u8>),
    >)
        requires
            store.wf(),
        ensures
            r.deep_view() == source_range(store@, source.spec_bytes()),
    {
        src_raw_events(store, source)
    }

    /// The stored HTTP events of one source, as raw entries.
    pub fn http_raw_events(&self, store: &RawEventStore, source: &str) -> (r: Vec<
        (Vec<u8>, Vec<u8>),
    >)
        requires
            store.wf(),
        ensures
            r.deep_view() == source_range(store@, source.spec_bytes()),
    {
        src_raw_events(store, source)
    }

    /// The stored RDP events of one source, as raw entries.
    pub fn rdp_raw_events(&self, store: &RawEventStore, source: &str) -> (r: Vec<
        (Vec<u8>, Vec<u8>),
    >)
        requires
            store.wf(),
        ensures
            r.deep_view() == source_range(store@, source.spec_bytes()),
    {
        src_raw_events(store, source)
    }

    /// The generic-log lines of one source and log kind, in base64 and
    /// stored order. The query succeeds exactly when every stored body
    /// under the prefix holds one serialised log pair; the lines are the
    /// bodies whose kind field agrees with the one asked for, which the
    /// key prefix already selects.
    #[verifier::loop_isolation(false)]
    pub fn log_raw_events(&self, store: &RawEventStore, source: &str, kind: &String) -> (r: Result<
        Vec<String>,
        MalformedLogBody,
    >)
        requires
            store.wf(),
        ensures
            r is Ok <==> forall|i: int|
                0 <= i < log_range(store@, source.spec_bytes(), crate::ingest::str_bytes(*kind)).len()
                    ==> log_decodable(
                    #[trigger] log_range(
                        store@,
                        source.spec_bytes(),
                        crate::ingest::str_bytes(*kind),
                    )[i].1,
                ),
            r matches Ok(out) ==> out.deep_view() == log_b64s(
                log_range(store@, source.spec_bytes(), crate::ingest::str_bytes(*kind)),
                kind@,
            ),
    {
        let mut prefix = vstd::slice::slice_to_vec(source.as_bytes());
        prefix.push(0u8);
        let mut kb = vstd::slice::slice_to_vec(kind.as_str().as_bytes());
        prefix.append(&mut kb);
        proof {
            assert(prefix@ =~= source.spec_bytes() + seq![0u8] + crate::ingest::str_bytes(
                *kind,
            ));
        }
        let from = crate::keys::lower_bound_key(prefix.as_slice(), None);
        let to = crate::keys::upper_bound_key(prefix.as_slice(), None);
        let scan = store.scan_range(
            from.as_slice(),
            to.as_slice(),
            crate::storage::Direction::Forward,
        );
        let ghost range = scan.deep_view();
        proof {
            crate::storage::lemma_deep_is_map(&scan);
            assert(range == log_range(
                store@,
                source.spec_bytes(),
                crate::ingest::str_bytes(*kind),
            ));
        }
        let mut out: Vec<String> = Vec::new();
        let n = scan.len();
        proof {
            assert(range.take(0) =~= Seq::<(Seq<u8>, Seq<u8>)>::empty());
        }
        let mut i: usize = 0;
        while i < n
            invariant
                i <= n,
                n == scan@.len(),
                forall|j: int| 0 <= j < i ==> log_decodable(#[trigger] range[j].1),
                out.deep_view() == log_b64s(range.take(i as int), kind@),
            decreases n - i,
        {
            proof {
                lemma_log_b64s_push(range.take(i as int), range[i as int], kind@);
                assert(range.take(i + 1) =~= range.take(i as int).push(range[i as int]));
            }
            let ghost od = out.deep_view();
            let e = &scan[i];
            match crate::codec::decode_log_body(e.1.as_slice()) {
                Some(kv) => {
                    let (k, b) = kv;
                    let ghost kk = k@;
                    let ghost bb = b@;
                    // the decoder accepts trailing bytes, so the fields are
                    // held against the body: only a body that is exactly
                    // their serialised form counts as a log event
                    let reencoded = crate::codec::encode_log_body(k.as_str(), b.as_slice());
                    if !crate::order::eq_bytes(reencoded.as_slice(), e.1.as_slice()) {
                        proof {
                            assert(!log_decodable(range[i as int].1)) by {
                                if log_decodable(range[i as int].1) {
                                    let (k2, b2) = log_fields(range[i as int].1);
                                    assert(range[i as int].1 == crate::codec::log_body_of(
                                        k2,
                                        b2,
                                    ));
                                }
                            }
                        }
                        return Err(MalformedLogBody);
                    }
                    proof {
                        assert(range[i as int].1 == crate::codec::log_body_of(kk, bb));
                        assert(log_decodable(range[i as int].1));
                        let fields = log_fields(range[i as int].1);
                        assert(range[i as int].1 == crate::codec::log_body_of(
                            fields.0,
                            fields.1,
                        ));
                        assert(fields.0 == kk && fields.1 == bb);
                    }
                    let hit = k == *kind;
                    if hit {
                        let line = crate::codec::base64_encode(b.as_slice());
                        let ghost ov0 = out@;
                        out.push(line);
                        proof {
                            assert forall|j: int|
                                0 <= j < out@.len() implies out.deep_view()[j] == od.push(
                                base64_of(bb),
                            )[j] by {
                                assert(out.deep_view()[j] == out@[j]@);
                                if j < out@.len() - 1 {
                                    assert(out@[j] == ov0[j]);
                                    assert(od[j] == ov0[j]@);
                                }
                            }
                            assert(out.deep_view() =~= od.push(base64_of(bb)));
                        }
                    }
                },
                None => {
                    proof {
                        assert(!log_decodable(range[i as int].1)) by {
                            if log_decodable(range[i as int].1) {
                                let fields = log_fields(range[i as int].1);
                                assert(range[i as int].1 == crate::codec::log_body_of(
                                    fields.0,
                                    fields.1,
                                ));
                            }
                        }
                    }
                    return Err(MalformedLogBody);
                },
            }
            i += 1;
        }
        proof {
            assert(range.take(n as int) =~= range);
        }
        Ok(out)
    }
}

} // verus!
