//! The ingest dispatcher core.
//!
//! Per sub-stream the transport hands each record to the dispatcher, which
//! composes the storage key for the record's kind, appends the raw bytes to
//! the kind's column family, drives the cumulative-acknowledgement state
//! machine, and says whether the record is published on the direct-stream
//! bus.
use vstd::prelude::*;
use vstd::string::{StringExecFns, StringSliceAdditionalSpecFns};
use vstd::utf8::encode_utf8;

use crate::keys::{be_bytes, to_be4, ts_bytes, StorageKey};
use crate::kind::{is_network_kind, RawEventKind};
use crate::storage::{insert_sorted, spec_get, RawEventStore};

verus! {

/// Writes on a stream between two rotation acknowledgements.
pub const ACK_ROTATION_CNT: u16 = 1024;

/// Seconds of quiet after which the interval trigger acknowledges.
pub const ACK_INTERVAL_TIME: u64 = 60;

/// The timestamp a batch-delimiting sentinel record carries.
pub const CHANNEL_CLOSE_TIMESTAMP: i64 = -1;

/// The timestamp value that stands for "no record seen yet".
pub const NO_TIMESTAMP: i64 = 0;

/// The body of a batch-delimiting sentinel record: the ASCII bytes of
/// `channel done`.
pub open spec fn channel_close_message() -> Seq<u8> {
    seq![99u8, 104u8, 97u8, 110u8, 110u8, 101u8, 108u8, 32u8, 100u8, 111u8, 110u8, 101u8]
}

/// Whether a frame is the batch-delimiting sentinel: timestamp `-1` and the
/// literal body `channel done`.
pub open spec fn is_sentinel(timestamp: i64, body: Seq<u8>) -> bool {
    timestamp == CHANNEL_CLOSE_TIMESTAMP && body == channel_close_message()
}

/// Tests a frame for the batch-delimiting sentinel.
pub fn check_sentinel(timestamp: i64, body: &[u8]) -> (r: bool)
    ensures
        r == is_sentinel(timestamp, body@),
{
    if timestamp != CHANNEL_CLOSE_TIMESTAMP {
        return false;
    }
    let msg: [u8; 12] = [99u8, 104u8, 97u8, 110u8, 110u8, 101u8, 108u8, 32u8, 100u8, 111u8, 110u8, 101u8];
    proof {
        assert(msg@ =~= channel_close_message());
    }
    crate::order::eq_bytes(body, msg.as_slice())
}

/// The UTF-8 bytes of the token that marks a replay agent.
pub open spec fn reproduce_token() -> Seq<u8> {
    seq![114u8, 101u8, 112u8, 114u8, 111u8, 100u8, 117u8, 99u8, 101u8]
}

/// Whether an agent name classifies its connection as replay: its records
/// are stored, but the sensor never enters the live roster.
///
/// This is deliberately a substring test, not an exact token match: any
/// agent whose name merely contains `reproduce` counts as a replay agent.
pub open spec fn is_replay(agent: Seq<u8>) -> bool {
    exists|i: int|
        0 <= i && i + 9 <= agent.len() && #[trigger] agent.subrange(i, i + 9)
            == reproduce_token()
}

/// Classifies an agent name, by the substring test `is_replay` describes.
#[verifier::loop_isolation(false)]
pub fn is_replay_agent(agent: &str) -> (r: bool)
    ensures
        r == is_replay(agent.spec_bytes()),
{
    let b = agent.as_bytes();
    let token: [u8; 9] = [114u8, 101u8, 112u8, 114u8, 111u8, 100u8, 117u8, 99u8, 101u8];
    proof {
        assert(token@ =~= reproduce_token());
    }
    if b.len() < 9 {
        return false;
    }
    let n = b.len() - 9;
    let mut i: usize = 0;
    loop
        invariant
            i <= n + 1,
            n + 9 == b@.len(),
            b@ == agent.spec_bytes(),
            forall|j: int| 0 <= j < i ==> #[trigger] b@.subrange(j, j + 9) != reproduce_token(),
        decreases n + 1 - i,
    {
        if i > n {
            proof {
                assert(!is_replay(agent.spec_bytes())) by {
                    if is_replay(agent.spec_bytes()) {
                        let w = choose|w: int|
                            0 <= w && w + 9 <= b@.len() && #[trigger] b@.subrange(w, w + 9)
                                == reproduce_token();
                        assert(w < i);
                    }
                }
            }
            return false;
        }
        let window = vstd::slice::slice_subrange(b, i, i + 9);
        if crate::order::eq_bytes(window, token.as_slice()) {
            proof {
                assert(b@.subrange(i as int, i + 9) == reproduce_token());
            }
            return true;
        }
        i += 1;
    }
}

/// The sensor versions the ingest transport accepts: at least 0.15.0 and
/// below 0.16.0, so exactly the 0.15 line.
pub open spec fn ingest_version_ok(major: nat, minor: nat) -> bool {
    major == 0 && minor == 15
}

/// Decides a sensor's version from its parsed major and minor numbers; a
/// version outside the accepted range closes the connection with the
/// version string as the reason.
pub fn accept_ingest_version(major: u64, minor: u64) -> (r: bool)
    ensures
        r == ingest_version_ok(major as nat, minor as nat),
{
    major == 0 && minor == 15
}

/// The keys a freshly ingested network record is published under on the
/// direct-stream bus: one for its sensor and one for every sensor.
pub struct NetworkKey {
    pub source_key: String,
    pub all_key: String,
}

impl NetworkKey {
    /// Composes the two bus keys `source NUL protocol` and
    /// `all NUL protocol`.
    pub fn new(source: &str, protocol: &str) -> (r: Self)
        ensures
            r.source_key@ == source@ + seq!['\0'] + protocol@,
            r.all_key@ == seq!['a', 'l', 'l'] + seq!['\0'] + protocol@,
    {
        let mut source_key = source.to_owned();
        source_key.append("\0");
        source_key.append(protocol);
        let mut all_key = String::new();
        all_key.append("all");
        all_key.append("\0");
        all_key.append(protocol);
        proof {
            reveal_strlit("\0");
            reveal_strlit("all");
            assert("\0"@ =~= seq!['\0']);
            assert("all"@ =~= seq!['a', 'l', 'l']);
        }
        NetworkKey { source_key, all_key }
    }
}

/// What the cumulative-acknowledgement state machine answers to one event.
pub enum AckEvent {
    Record(i64),
    Tick,
    Close,
}

/// One step of the acknowledgement state machine: from a rotation count and
/// a last-seen timestamp to the next state and the acknowledgement it
/// emits, if any.
pub open spec fn ack_step(count: int, last: i64, ev: AckEvent) -> (int, i64, Option<i64>) {
    match ev {
        AckEvent::Record(t) => if count + 1 == ACK_ROTATION_CNT {
            (0, t, Some(t))
        } else {
            (count + 1, t, None)
        },
        AckEvent::Tick => if count > 0 {
            (0, last, Some(last))
        } else {
            (count, last, None)
        },
        AckEvent::Close => (0, last, if count > 0 {
            Some(last)
        } else {
            None
        }),
    }
}

/// The acknowledgements a run of events emits, in order.
pub open spec fn ack_run(count: int, last: i64, evs: Seq<AckEvent>) -> Seq<i64>
    decreases evs.len(),
{
    if evs.len() == 0 {
        Seq::empty()
    } else {
        let step = ack_step(count, last, evs[0]);
        let rest = ack_run(step.0, step.1, evs.drop_first());
        match step.2 {
            Some(a) => seq![a] + rest,
            None => rest,
        }
    }
}

/// The cumulative-acknowledgement controller of one sub-stream: a rotation
/// counter and the last record timestamp seen.
pub struct AckController {
    count: u16,
    last_timestamp: i64,
}

impl AckController {
    pub closed spec fn spec_count(self) -> u16 {
        self.count
    }

    pub closed spec fn spec_last(self) -> i64 {
        self.last_timestamp
    }

    pub open spec fn wf(self) -> bool {
        self.spec_count() < ACK_ROTATION_CNT
    }

    /// A fresh stream: nothing seen, nothing owed.
    pub fn new() -> (c: Self)
        ensures
            c.wf(),
            c.spec_count() == 0,
            c.spec_last() == NO_TIMESTAMP,
    {
        AckController { count: 0, last_timestamp: NO_TIMESTAMP }
    }

    /// One successful write: the rotation trigger acknowledges the record's
    /// own timestamp on every 1024th write, asks for a flush, and resets
    /// the counter.
    pub fn on_record(&mut self, timestamp: i64) -> (r: Option<i64>)
        requires
            old(self).wf(),
        ensures
            final (self).wf(),
            ({
                let step = ack_step(
                    old(self).spec_count() as int,
                    old(self).spec_last(),
                    AckEvent::Record(timestamp),
                );
                &&& final (self).spec_count() == step.0
                &&& final (self).spec_last() == step.1
                &&& r == step.2
            }),
            r == if old(self).spec_count() + 1 == ACK_ROTATION_CNT {
                Some(timestamp)
            } else {
                None::<i64>
            },
    {
        self.last_timestamp = timestamp;
        if self.count + 1 == ACK_ROTATION_CNT {
            self.count = 0;
            Some(timestamp)
        } else {
            self.count = self.count + 1;
            None
        }
    }

    /// The interval trigger: with at least one unacknowledged write,
    /// acknowledge the last-seen timestamp and reset the rotation counter.
    pub fn on_interval_tick(&mut self) -> (r: Option<i64>)
        requires
            old(self).wf(),
        ensures
            final (self).wf(),
            ({
                let step = ack_step(
                    old(self).spec_count() as int,
                    old(self).spec_last(),
                    AckEvent::Tick,
                );
                &&& final (self).spec_count() == step.0
                &&& final (self).spec_last() == step.1
                &&& r == step.2
            }),
    {
        if self.count > 0 {
            self.count = 0;
            Some(self.last_timestamp)
        } else {
            None
        }
    }

    /// A batch-delimiting sentinel asks for an immediate acknowledgement of
    /// its own negative timestamp; the counters stand untouched.
    pub fn on_sentinel(&self) -> (r: i64)
        ensures
            r == CHANNEL_CLOSE_TIMESTAMP,
    {
        CHANNEL_CLOSE_TIMESTAMP
    }

    /// Stream close: whatever is still unacknowledged is acknowledged once.
    pub fn on_stream_close(&mut self) -> (r: Option<i64>)
        requires
            old(self).wf(),
        ensures
            final (self).wf(),
            ({
                let step = ack_step(
                    old(self).spec_count() as int,
                    old(self).spec_last(),
                    AckEvent::Close,
                );
                &&& final (self).spec_count() == step.0
                &&& final (self).spec_last() == step.1
                &&& r == step.2
            }),
    {
        let r = if self.count > 0 {
            Some(self.last_timestamp)
        } else {
            None
        };
        self.count = 0;
        r
    }
}

/// A sequence of acknowledgement timestamps that never goes back.
pub open spec fn non_decreasing(s: Seq<i64>) -> bool {
    forall|i: int, j: int| 0 <= i <= j < s.len() ==> s[i] <= s[j]
}

/// All record timestamps of a run lie at or above `last`, and they arrive
/// in non-decreasing order.
pub open spec fn records_ordered_from(evs: Seq<AckEvent>, last: i64) -> bool {
    &&& forall|i: int|
        0 <= i < evs.len() ==> ((#[trigger] evs[i]) matches AckEvent::Record(t) ==> t >= last)
    &&& forall|i: int, j: int|
        0 <= i < j < evs.len() ==> ((#[trigger] evs[i]) matches AckEvent::Record(t1)
            ==> ((#[trigger] evs[j]) matches AckEvent::Record(t2) ==> t1 <= t2))
}

/// Ack monotonicity: when a stream's records carry non-decreasing
/// timestamps, the acknowledgements the controller emits — rotation,
/// interval and close alike — are non-decreasing; only the immediate
/// sentinel acknowledgement of `-1` stands outside the run.
pub proof fn lemma_ack_monotonic(count: int, last: i64, evs: Seq<AckEvent>)
    requires
        records_ordered_from(evs, last),
    ensures
        non_decreasing(ack_run(count, last, evs)),
        forall|k: int|
            0 <= k < ack_run(count, last, evs).len() ==> #[trigger] ack_run(
                count,
                last,
                evs,
            )[k] >= last,
    decreases evs.len(),
{
    if evs.len() > 0 {
        let step = ack_step(count, last, evs[0]);
        let rest = evs.drop_first();
        assert(records_ordered_from(rest, step.1)) by {
            assert forall|i: int|
                0 <= i < rest.len() implies ((#[trigger] rest[i]) matches AckEvent::Record(t)
                ==> t >= step.1) by {
                assert(rest[i] == evs[i + 1]);
                match rest[i] {
                    AckEvent::Record(t) => {
                        match evs[0] {
                            AckEvent::Record(t0) => {
                                assert(t0 <= t);
                            },
                            _ => {
                                assert(step.1 == last);
                            },
                        }
                    },
                    _ => {},
                }
            }
            assert forall|i: int, j: int|
                0 <= i < j < rest.len() implies ((#[trigger] rest[i]) matches AckEvent::Record(
                t1,
            ) ==> ((#[trigger] rest[j]) matches AckEvent::Record(t2) ==> t1 <= t2)) by {
                assert(rest[i] == evs[i + 1] && rest[j] == evs[j + 1]);
            }
        }
        lemma_ack_monotonic(step.0, step.1, rest);
        let run = ack_run(count, last, evs);
        let rrun = ack_run(step.0, step.1, rest);
        assert(step.1 >= last) by {
            match evs[0] {
                AckEvent::Record(t0) => {},
                _ => {},
            }
        }
        match step.2 {
            Some(a) => {
                assert(run == seq![a] + rrun);
                assert(a == step.1 || a == last);
                assert forall|i: int, j: int| 0 <= i <= j < run.len() implies run[i]
                    <= run[j] by {
                    if i > 0 {
                        assert(run[i] == rrun[i - 1] && run[j] == rrun[j - 1]);
                    } else if j > 0 {
                        assert(run[j] == rrun[j - 1]);
                        assert(rrun[j - 1] >= step.1);
                    }
                }
                assert forall|k: int| 0 <= k < run.len() implies run[k] >= last by {
                    if k > 0 {
                        assert(run[k] == rrun[k - 1]);
                        assert(rrun[k - 1] >= step.1);
                    }
                }
            },
            None => {
                assert(run == rrun);
                assert forall|k: int| 0 <= k < run.len() implies run[k] >= last by {
                    assert(run[k] >= step.1);
                }
            },
        }
    }
}

/// Rotation: a fresh stream that takes `n` records emits no acknowledgement
/// before the 1024th, and on the 1024th exactly one, of that record's own
/// timestamp.
pub proof fn lemma_ack_rotation(count: int, last: i64, evs: Seq<AckEvent>)
    requires
        0 <= count < ACK_ROTATION_CNT,
        forall|i: int| 0 <= i < evs.len() ==> (#[trigger] evs[i]) is Record,
        count + evs.len() < ACK_ROTATION_CNT,
    ensures
        ack_run(count, last, evs) == Seq::<i64>::empty(),
    decreases evs.len(),
{
    if evs.len() > 0 {
        let step = ack_step(count, last, evs[0]);
        assert(evs[0] is Record);
        assert(step.2 is None);
        assert(forall|i: int|
            0 <= i < evs.drop_first().len() ==> #[trigger] evs.drop_first()[i] == evs[i + 1]);
        lemma_ack_rotation(step.0, step.1, evs.drop_first());
    }
}

/// After exactly 1024 records on a fresh stream, exactly one
/// acknowledgement is emitted, of the 1024th record's timestamp.
pub proof fn lemma_ack_rotation_emits(evs: Seq<AckEvent>)
    requires
        evs.len() == ACK_ROTATION_CNT,
        forall|i: int| 0 <= i < evs.len() ==> (#[trigger] evs[i]) is Record,
    ensures
        evs.last() matches AckEvent::Record(t) ==> ack_run(0, NO_TIMESTAMP, evs) == seq![t],
{
    lemma_ack_rotation_emits_from(0, NO_TIMESTAMP, evs);
}

proof fn lemma_ack_rotation_emits_from(count: int, last: i64, evs: Seq<AckEvent>)
    requires
        0 <= count < ACK_ROTATION_CNT,
        count + evs.len() == ACK_ROTATION_CNT,
        evs.len() > 0,
        forall|i: int| 0 <= i < evs.len() ==> (#[trigger] evs[i]) is Record,
    ensures
        evs.last() matches AckEvent::Record(t) ==> ack_run(count, last, evs) == seq![t],
    decreases evs.len(),
{
    let step = ack_step(count, last, evs[0]);
    assert(evs[0] is Record);
    if evs.len() == 1 {
        assert(evs.last() == evs[0]);
        match evs[0] {
            AckEvent::Record(t) => {
                assert(step.2 == Some(t));
                assert(evs.drop_first().len() == 0);
                assert(ack_run(step.0, step.1, evs.drop_first()) =~= Seq::<i64>::empty());
                assert(ack_run(count, last, evs) == seq![t] + ack_run(
                    step.0,
                    step.1,
                    evs.drop_first(),
                ));
                assert(seq![t] + Seq::<i64>::empty() =~= seq![t]);
            },
            _ => {},
        }
    } else {
        assert(step.2 is None);
        assert(forall|i: int|
            0 <= i < evs.drop_first().len() ==> #[trigger] evs.drop_first()[i] == evs[i + 1]);
        lemma_ack_rotation_emits_from(step.0, step.1, evs.drop_first());
        assert(evs.drop_first().last() == evs.last());
    }
}

/// The fields of a record that take part in key composition, parsed out of
/// its body by the transport layer.
pub enum RecordData {
    /// A network event: the key is `sensor NUL timestamp`.
    Network,
    /// A generic log event: the key is `sensor NUL log-kind NUL timestamp`.
    Log { log_kind: Vec<u8> },
    /// A periodic time series: the key is `series-id NUL timestamp`.
    PeriodicTimeSeries { id: String },
    /// An operational log event: the key is `agent@sensor NUL timestamp`.
    OpLog { agent_id: String },
    /// A packet: the key is
    /// `sensor NUL request-timestamp NUL packet-timestamp`.
    Packet { packet_timestamp: i64 },
    /// A statistics record: the key is
    /// `sensor NUL core-id(be) NUL timestamp`.
    Statistics { core: u32 },
    /// A security log event: the key is `security-kind NUL timestamp`, and
    /// the stored body is the one rewritten to carry the sensor name.
    SecuLog { secu_kind: String, rewritten: Vec<u8> },
}

/// Whether parsed fields fit the record kind they came with.
pub open spec fn data_matches(kind: RawEventKind, data: RecordData) -> bool {
    match data {
        RecordData::Network => kind != RawEventKind::Log && kind
            != RawEventKind::PeriodicTimeSeries && kind != RawEventKind::OpLog && kind
            != RawEventKind::Packet && kind != RawEventKind::Statistics && kind
            != RawEventKind::SecuLog,
        RecordData::Log { .. } => kind == RawEventKind::Log,
        RecordData::PeriodicTimeSeries { .. } => kind == RawEventKind::PeriodicTimeSeries,
        RecordData::OpLog { .. } => kind == RawEventKind::OpLog,
        RecordData::Packet { .. } => kind == RawEventKind::Packet,
        RecordData::Statistics { .. } => kind == RawEventKind::Statistics,
        RecordData::SecuLog { .. } => kind == RawEventKind::SecuLog,
    }
}

/// The UTF-8 bytes of a string value.
pub open spec fn str_bytes(s: String) -> Seq<u8> {
    encode_utf8(s@)
}

/// The storage key of one record, composed from its kind's layout.
pub open spec fn storage_key_spec(source: Seq<u8>, timestamp: i64, data: RecordData) -> Seq<u8> {
    match data {
        RecordData::Network => source + seq![0u8] + ts_bytes(timestamp),
        RecordData::Log { log_kind } => source + seq![0u8] + log_kind@ + seq![0u8] + ts_bytes(
            timestamp,
        ),
        RecordData::PeriodicTimeSeries { id } => str_bytes(id) + seq![0u8] + ts_bytes(timestamp),
        RecordData::OpLog { agent_id } => str_bytes(agent_id) + seq![0u8] + ts_bytes(timestamp),
        RecordData::Packet { packet_timestamp } => source + seq![0u8] + ts_bytes(timestamp)
            + seq![0u8] + ts_bytes(packet_timestamp),
        RecordData::Statistics { core } => source + seq![0u8] + be_bytes(core as nat, 4)
            + seq![0u8] + ts_bytes(timestamp),
        RecordData::SecuLog { secu_kind, .. } => str_bytes(secu_kind) + seq![0u8] + ts_bytes(
            timestamp,
        ),
    }
}

/// The bytes stored for one record: its body as received, except for the
/// security log, whose body is the rewritten one.
pub open spec fn stored_bytes_spec(data: RecordData, raw_event: Seq<u8>) -> Seq<u8> {
    match data {
        RecordData::SecuLog { rewritten, .. } => rewritten@,
        _ => raw_event,
    }
}

/// Composes the storage key of one record.
pub fn compose_storage_key(source: &str, timestamp: i64, data: &RecordData) -> (key: Vec<u8>)
    ensures
        key@ == storage_key_spec(source.spec_bytes(), timestamp, *data),
{
    match data {
        RecordData::Network => {
            StorageKey::builder().start_key(source).end_key(timestamp).build().key()
        },
        RecordData::Log { log_kind } => {
            let mid = vstd::slice::slice_to_vec(log_kind.as_slice());
            StorageKey::builder().start_key(source).mid_key(Some(mid)).end_key(
                timestamp,
            ).build().key()
        },
        RecordData::PeriodicTimeSeries { id } => {
            StorageKey::builder().start_key(id.as_str()).end_key(timestamp).build().key()
        },
        RecordData::OpLog { agent_id } => {
            StorageKey::builder().start_key(agent_id.as_str()).end_key(timestamp).build().key()
        },
        RecordData::Packet { packet_timestamp } => {
            let mid = crate::keys::to_be8(timestamp);
            StorageKey::builder().start_key(source).mid_key(Some(mid)).end_key(
                *packet_timestamp,
            ).build().key()
        },
        RecordData::Statistics { core } => {
            let mid = to_be4(*core);
            StorageKey::builder().start_key(source).mid_key(Some(mid)).end_key(
                timestamp,
            ).build().key()
        },
        RecordData::SecuLog { secu_kind, .. } => {
            StorageKey::builder().start_key(secu_kind.as_str()).end_key(timestamp).build().key()
        },
    }
}

/// Builds the agent identifier `agent@sensor` the operational log is keyed
/// by.
pub fn oplog_agent_id(agent_name: &str, source: &str) -> (r: String)
    ensures
        r@ == agent_name@ + seq!['@'] + source@,
{
    let mut id = agent_name.to_owned();
    id.append("@");
    id.append(source);
    proof {
        reveal_strlit("@");
        assert("@"@ =~= seq!['@']);
    }
    id
}

/// What one ingested record caused: the acknowledgement owed on the
/// stream, whether the column family took a durable flush, and whether the
/// record goes out on the direct-stream bus.
pub struct IngestOutcome {
    pub ack: Option<i64>,
    pub flush: bool,
    pub publish: bool,
}

/// One non-sentinel record through the dispatcher: the record's bytes are
/// stored under its composed key, the acknowledgement state machine takes
/// one write, and on rotation the column family is flushed.
pub fn ingest_record(
    store: &mut RawEventStore,
    ack: &mut AckController,
    source: &str,
    kind: RawEventKind,
    timestamp: i64,
    data: RecordData,
    raw_event: Vec<u8>,
) -> (r: IngestOutcome)
    requires
        old(store).wf(),
        old(ack).wf(),
        data_matches(kind, data),
    ensures
        final (store).wf(),
        final (ack).wf(),
        final (store)@ == insert_sorted(
            old(store)@,
            storage_key_spec(source.spec_bytes(), timestamp, data),
            stored_bytes_spec(data, raw_event@),
        ),
        spec_get(final (store)@, storage_key_spec(source.spec_bytes(), timestamp, data)) == Some(
            stored_bytes_spec(data, raw_event@),
        ),
        forall|k: Seq<u8>|
            k != storage_key_spec(source.spec_bytes(), timestamp, data) ==> spec_get(
                final (store)@,
                k,
            ) == spec_get(old(store)@, k),
        ({
            let step = ack_step(
                old(ack).spec_count() as int,
                old(ack).spec_last(),
                AckEvent::Record(timestamp),
            );
            &&& r.ack == step.2
            &&& final (ack).spec_count() == step.0
            &&& final (ack).spec_last() == step.1
        }),
        r.flush == (r.ack is Some),
        r.flush ==> final (store).spec_flushes() == if old(store).spec_flushes() == u64::MAX {
            u64::MAX
        } else {
            (old(store).spec_flushes() + 1) as u64
        },
        !r.flush ==> final (store).spec_flushes() == old(store).spec_flushes(),
        r.publish == is_network_kind(kind),
{
    let key = compose_storage_key(source, timestamp, &data);
    let value: Vec<u8> = match data {
        RecordData::SecuLog { rewritten, .. } => rewritten,
        _ => raw_event,
    };
    store.append(key.as_slice(), value.as_slice());
    let ack_out = ack.on_record(timestamp);
    let flush = ack_out.is_some();
    if flush {
        store.flush();
    }
    let publish = kind.network_protocol().is_some();
    IngestOutcome { ack: ack_out, flush, publish }
}

} // verus!
