//! The closed enumeration of record kinds.
//!
//! Each kind maps one-to-one to a column family of the store, and the first
//! frame of every ingest sub-stream names a kind by its 4-byte little-endian
//! wire code.
use vstd::prelude::*;

verus! {

/// Every record kind the engine ingests: the network protocols, the generic
/// log, the periodic time series, the operational log, statistics, raw
/// packets, the host-side events, netflow, and the security log.
#[derive(Clone, Copy, Debug, PartialEq, Eq, Structural)]
pub enum RawEventKind {
    Conn,
    Dns,
    Log,
    Http,
    Rdp,
    PeriodicTimeSeries,
    Smtp,
    Ntlm,
    Kerberos,
    Ssh,
    DceRpc,
    Statistics,
    OpLog,
    Packet,
    Ftp,
    Mqtt,
    Ldap,
    Tls,
    Smb,
    Nfs,
    ProcessCreate,
    FileCreateTime,
    NetworkConnect,
    ProcessTerminate,
    ImageLoad,
    FileCreate,
    RegistryValueSet,
    RegistryKeyRename,
    FileCreateStreamHash,
    PipeEvent,
    DnsQuery,
    FileDelete,
    ProcessTamper,
    FileDeleteDetected,
    Netflow5,
    Netflow9,
    SecuLog,
}

/// How many record kinds there are.
pub const KIND_COUNT: usize = 37;

/// The wire code of a record kind, as the first frame of a sub-stream
/// carries it.
pub open spec fn code_of(k: RawEventKind) -> u32 {
    match k {
        RawEventKind::Conn => 0,
        RawEventKind::Dns => 1,
        RawEventKind::Log => 2,
        RawEventKind::Http => 3,
        RawEventKind::Rdp => 4,
        RawEventKind::PeriodicTimeSeries => 5,
        RawEventKind::Smtp => 6,
        RawEventKind::Ntlm => 7,
        RawEventKind::Kerberos => 8,
        RawEventKind::Ssh => 9,
        RawEventKind::DceRpc => 10,
        RawEventKind::Statistics => 11,
        RawEventKind::OpLog => 12,
        RawEventKind::Packet => 13,
        RawEventKind::Ftp => 14,
        RawEventKind::Mqtt => 15,
        RawEventKind::Ldap => 16,
        RawEventKind::Tls => 17,
        RawEventKind::Smb => 18,
        RawEventKind::Nfs => 19,
        RawEventKind::ProcessCreate => 20,
        RawEventKind::FileCreateTime => 21,
        RawEventKind::NetworkConnect => 22,
        RawEventKind::ProcessTerminate => 23,
        RawEventKind::ImageLoad => 24,
        RawEventKind::FileCreate => 25,
        RawEventKind::RegistryValueSet => 26,
        RawEventKind::RegistryKeyRename => 27,
        RawEventKind::FileCreateStreamHash => 28,
        RawEventKind::PipeEvent => 29,
        RawEventKind::DnsQuery => 30,
        RawEventKind::FileDelete => 31,
        RawEventKind::ProcessTamper => 32,
        RawEventKind::FileDeleteDetected => 33,
        RawEventKind::Netflow5 => 34,
        RawEventKind::Netflow9 => 35,
        RawEventKind::SecuLog => 36,
    }
}

impl RawEventKind {
    /// The wire code of this kind.
    pub fn code(self) -> (c: u32)
        ensures
            c == code_of(self),
    {
        match self {
            RawEventKind::Conn => 0,
            RawEventKind::Dns => 1,
            RawEventKind::Log => 2,
            RawEventKind::Http => 3,
            RawEventKind::Rdp => 4,
            RawEventKind::PeriodicTimeSeries => 5,
            RawEventKind::Smtp => 6,
            RawEventKind::Ntlm => 7,
            RawEventKind::Kerberos => 8,
            RawEventKind::Ssh => 9,
            RawEventKind::DceRpc => 10,
            RawEventKind::Statistics => 11,
            RawEventKind::OpLog => 12,
            RawEventKind::Packet => 13,
            RawEventKind::Ftp => 14,
            RawEventKind::Mqtt => 15,
            RawEventKind::Ldap => 16,
            RawEventKind::Tls => 17,
            RawEventKind::Smb => 18,
            RawEventKind::Nfs => 19,
            RawEventKind::ProcessCreate => 20,
            RawEventKind::FileCreateTime => 21,
            RawEventKind::NetworkConnect => 22,
            RawEventKind::ProcessTerminate => 23,
            RawEventKind::ImageLoad => 24,
            RawEventKind::FileCreate => 25,
            RawEventKind::RegistryValueSet => 26,
            RawEventKind::RegistryKeyRename => 27,
            RawEventKind::FileCreateStreamHash => 28,
            RawEventKind::PipeEvent => 29,
            RawEventKind::DnsQuery => 30,
            RawEventKind::FileDelete => 31,
            RawEventKind::ProcessTamper => 32,
            RawEventKind::FileDeleteDetected => 33,
            RawEventKind::Netflow5 => 34,
            RawEventKind::Netflow9 => 35,
            RawEventKind::SecuLog => 36,
        }
    }

    /// The index of this kind's column family within the store.
    pub fn index(self) -> (i: usize)
        ensures
            i == code_of(self) as usize,
            i < KIND_COUNT,
    {
        self.code() as usize
    }

    /// Reads a kind back from its wire code; codes outside the closed
    /// enumeration are refused.
    pub fn from_code(code: u32) -> (r: Option<RawEventKind>)
        ensures
            r is Some <==> code < 37,
            r matches Some(k) ==> code_of(k) == code,
    {
        match code {
            0 => Some(RawEventKind::Conn),
            1 => Some(RawEventKind::Dns),
            2 => Some(RawEventKind::Log),
            3 => Some(RawEventKind::Http),
            4 => Some(RawEventKind::Rdp),
            5 => Some(RawEventKind::PeriodicTimeSeries),
            6 => Some(RawEventKind::Smtp),
            7 => Some(RawEventKind::Ntlm),
            8 => Some(RawEventKind::Kerberos),
            9 => Some(RawEventKind::Ssh),
            10 => Some(RawEventKind::DceRpc),
            11 => Some(RawEventKind::Statistics),
            12 => Some(RawEventKind::OpLog),
            13 => Some(RawEventKind::Packet),
            14 => Some(RawEventKind::Ftp),
            15 => Some(RawEventKind::Mqtt),
            16 => Some(RawEventKind::Ldap),
            17 => Some(RawEventKind::Tls),
            18 => Some(RawEventKind::Smb),
            19 => Some(RawEventKind::Nfs),
            20 => Some(RawEventKind::ProcessCreate),
            21 => Some(RawEventKind::FileCreateTime),
            22 => Some(RawEventKind::NetworkConnect),
            23 => Some(RawEventKind::ProcessTerminate),
            24 => Some(RawEventKind::ImageLoad),
            25 => Some(RawEventKind::FileCreate),
            26 => Some(RawEventKind::RegistryValueSet),
            27 => Some(RawEventKind::RegistryKeyRename),
            28 => Some(RawEventKind::FileCreateStreamHash),
            29 => Some(RawEventKind::PipeEvent),
            30 => Some(RawEventKind::DnsQuery),
            31 => Some(RawEventKind::FileDelete),
            32 => Some(RawEventKind::ProcessTamper),
            33 => Some(RawEventKind::FileDeleteDetected),
            34 => Some(RawEventKind::Netflow5),
            35 => Some(RawEventKind::Netflow9),
            36 => Some(RawEventKind::SecuLog),
            _ => None,
        }
    }

    /// The protocol label a network kind publishes under on the
    /// direct-stream bus; kinds without a network-key mapping return `None`.
    pub fn network_protocol(self) -> (r: Option<&'static str>)
        ensures
            r is Some <==> is_network_kind(self),
    {
        match self {
            RawEventKind::Conn => Some("conn"),
            RawEventKind::Dns => Some("dns"),
            RawEventKind::Log => Some("log"),
            RawEventKind::Http => Some("http"),
            RawEventKind::Rdp => Some("rdp"),
            RawEventKind::Smtp => Some("smtp"),
            RawEventKind::Ntlm => Some("ntlm"),
            RawEventKind::Kerberos => Some("kerberos"),
            RawEventKind::Ssh => Some("ssh"),
            RawEventKind::DceRpc => Some("dce rpc"),
            RawEventKind::Ftp => Some("ftp"),
            RawEventKind::Mqtt => Some("mqtt"),
            RawEventKind::Ldap => Some("ldap"),
            RawEventKind::Tls => Some("tls"),
            RawEventKind::Smb => Some("smb"),
            RawEventKind::Nfs => Some("nfs"),
            _ => None,
        }
    }
}

/// Wire codes stay below the kind count.
pub proof fn lemma_code_bound(k: RawEventKind)
    ensures
        0 <= code_of(k) < 37,
{
}

/// No two kinds share a wire code.
pub proof fn lemma_code_injective(a: RawEventKind, b: RawEventKind)
    ensures
        code_of(a) == code_of(b) ==> a == b,
{
}

/// The kinds that carry a network-key mapping for the direct-stream bus.
pub open spec fn is_network_kind(k: RawEventKind) -> bool {
    match k {
        RawEventKind::Conn
        | RawEventKind::Dns
        | RawEventKind::Log
        | RawEventKind::Http
        | RawEventKind::Rdp
        | RawEventKind::Smtp
        | RawEventKind::Ntlm
        | RawEventKind::Kerberos
        | RawEventKind::Ssh
        | RawEventKind::DceRpc
        | RawEventKind::Ftp
        | RawEventKind::Mqtt
        | RawEventKind::Ldap
        | RawEventKind::Tls
        | RawEventKind::Smb
        | RawEventKind::Nfs => true,
        _ => false,
    }
}

/// The kinds whose keys open with the sensor identifier and close with the
/// record timestamp, so that the retention sweeper can clear them with one
/// range delete per sensor.
pub open spec fn is_range_retained(k: RawEventKind) -> bool {
    match k {
        RawEventKind::Log
        | RawEventKind::PeriodicTimeSeries
        | RawEventKind::OpLog
        | RawEventKind::Statistics
        | RawEventKind::SecuLog => false,
        _ => true,
    }
}

impl RawEventKind {
    /// Whether the retention sweeper clears this kind by range delete.
    pub fn range_retained(self) -> (r: bool)
        ensures
            r == is_range_retained(self),
    {
        match self {
            RawEventKind::Log
            | RawEventKind::PeriodicTimeSeries
            | RawEventKind::OpLog
            | RawEventKind::Statistics
            | RawEventKind::SecuLog => false,
            _ => true,
        }
    }
}

} // verus!
