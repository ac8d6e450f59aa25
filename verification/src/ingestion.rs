//! The record bodies the query layer reads.
//!
//! Only the handful of fields that the query API hands out is modelled;
//! the network addresses arrive as their textual form, which is all the
//! query layer ever shows of them.
use vstd::prelude::*;

verus! {

/// A connection event body.
pub struct Conn {
    pub orig_addr: String,
    pub resp_addr: String,
    pub orig_port: u16,
    pub resp_port: u16,
    pub proto: u8,
    pub duration: i64,
    pub orig_bytes: u64,
    pub resp_bytes: u64,
    pub orig_pkts: u64,
    pub resp_pkts: u64,
}

/// A DNS event body.
pub struct DnsConn {
    pub orig_addr: String,
    pub resp_addr: String,
    pub orig_port: u16,
    pub resp_port: u16,
    pub proto: u8,
    pub query: String,
}

/// An HTTP event body.
pub struct HttpConn {
    pub orig_addr: String,
    pub resp_addr: String,
    pub orig_port: u16,
    pub resp_port: u16,
    pub method: String,
    pub host: String,
    pub uri: String,
    pub referrer: String,
    pub user_agent: String,
    pub status_code: u16,
}

/// An RDP event body.
pub struct RdpConn {
    pub orig_addr: String,
    pub resp_addr: String,
    pub orig_port: u16,
    pub resp_port: u16,
    pub cookie: String,
}

/// A generic log event body: the log kind and the raw line.
pub struct Log {
    pub log: (String, Vec<u8>),
}

} // verus!
