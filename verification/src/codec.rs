//! Trusted codecs from outside crates.
//!
//! The record bodies the engine stores are opaque serialised bytes; only
//! the generic log's body — a log kind and its raw line — is read and
//! written here, and the query layer hands bytes out in base64. The base64
//! texts are named, not restated; the log body's serialised form is short
//! enough to state outright, and everything the library proves about these
//! codecs goes through what stands below.
use vstd::prelude::*;
use vstd::utf8::encode_utf8;

verus! {

/// The standard base64 text of a byte run, as `base64::encode` writes it.
pub uninterp spec fn base64_of(b: Seq<u8>) -> Seq<char>;

/// Relies on `base64::encode`: the standard, padded base64 alphabet; the
/// text depends on the input bytes alone.
#[verifier::external_body]
pub fn base64_encode(b: &[u8]) -> (r: String)
    ensures
        r@ == base64_of(b@),
{
    base64::encode(b)
}

/// Relies on `base64::decode`: it inverts the encoder — a text some byte
/// run encodes to decodes back to that run, and to nothing else — and it
/// refuses a text with a symbol outside the standard alphabet. Padding is
/// optional to the decoder, so a successful decode does not by itself make
/// the input the encoder's text for the result.
#[verifier::external_body]
pub fn base64_decode(s: &str) -> (r: Option<Vec<u8>>)
    ensures
        r matches Some(v) ==> forall|w: Seq<u8>| s@ == #[trigger] base64_of(w) ==> w == v@,
        r is None ==> forall|w: Seq<u8>| s@ != #[trigger] base64_of(w),
{
    base64::decode(s).ok()
}

/// The standard base64 text of a byte run, as `data_encoding::BASE64`
/// writes it.
pub uninterp spec fn std_base64_of(b: Seq<u8>) -> Seq<char>;

/// Relies on `data_encoding::BASE64.encode`: RFC 4648 base64 with padding;
/// the text depends on the input bytes alone.
#[verifier::external_body]
pub fn std_base64_encode(b: &[u8]) -> (r: String)
    ensures
        r@ == std_base64_of(b@),
{
    data_encoding::BASE64.encode(b)
}

/// The `k` little-endian base-256 digits of `n`.
pub open spec fn le_bytes(n: nat, k: nat) -> Seq<u8>
    decreases k,
{
    if k == 0 {
        Seq::empty()
    } else {
        seq![(n % 256) as u8] + le_bytes(n / 256, (k - 1) as nat)
    }
}

/// The serialised form of a generic-log body — its log kind and raw line —
/// with the default fixed-width integer encoding: an 8-byte little-endian
/// length before the kind's UTF-8 bytes, and one before the raw line.
pub open spec fn log_body_of(kind: Seq<char>, body: Seq<u8>) -> Seq<u8> {
    le_bytes(encode_utf8(kind).len(), 8) + encode_utf8(kind) + le_bytes(body.len(), 8) + body
}

/// Relies on `bincode::serialize` with its default fixed-width integer
/// encoding: a string and a byte run each serialise as their 8-byte
/// little-endian length followed by their bytes, and serialising them
/// cannot fail.
#[verifier::external_body]
pub fn encode_log_body(kind: &str, body: &[u8]) -> (r: Vec<u8>)
    ensures
        r@ == log_body_of(kind@, body@),
{
    bincode::serialize(&(kind, body)).expect("serialising a string and bytes cannot fail")
}

/// Relies on `bincode::deserialize`: reading back a buffer that holds
/// exactly a serialised pair yields that pair's fields, and such a buffer
/// is never refused; a buffer with trailing bytes may also be accepted,
/// which is why nothing is claimed of the fields read off one.
#[verifier::external_body]
pub fn decode_log_body(raw: &[u8]) -> (r: Option<(String, Vec<u8>)>)
    ensures
        r matches Some(p) ==> forall|k: Seq<char>, b: Seq<u8>|
            raw@ == #[trigger] log_body_of(k, b) ==> p.0@ == k && p.1@ == b,
        r is None ==> forall|k: Seq<char>, b: Seq<u8>| raw@ != #[trigger] log_body_of(k, b),
{
    bincode::deserialize::<(String, Vec<u8>)>(raw).ok()
}

/// Whether a buffer holds exactly one serialised generic-log body.
pub open spec fn log_decodable(v: Seq<u8>) -> bool {
    exists|k: Seq<char>, b: Seq<u8>| v == #[trigger] log_body_of(k, b)
}

/// The fields of a buffer that holds exactly one serialised generic-log
/// body; meaningful only where `log_decodable` holds.
pub open spec fn log_fields(v: Seq<u8>) -> (Seq<char>, Seq<u8>) {
    choose|k: Seq<char>, b: Seq<u8>| v == #[trigger] log_body_of(k, b)
}

} // verus!
