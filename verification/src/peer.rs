//! The peer-mesh membership core.
//!
//! Sibling engines exchange two messages — the peer set and the sensor
//! roster — over framed streams. This module holds the closed message
//! codes, the wire framing, the peer set with its gossip merge, the
//! peer-connection map with its duplicate resolution, and the per-peer
//! sensor-roster map.
use vstd::prelude::*;
use vstd::string::StringExecFns;

verus! {

/// The closed enumeration of peer-mesh message codes.
#[derive(Clone, Copy, Debug, PartialEq, Eq, Structural)]
pub enum PeerCode {
    UpdatePeerList,
    UpdateSourceList,
}

/// The wire number of a message code.
pub open spec fn peer_code_num(c: PeerCode) -> u32 {
    match c {
        PeerCode::UpdatePeerList => 0,
        PeerCode::UpdateSourceList => 1,
    }
}

impl PeerCode {
    /// The wire number of this code.
    pub fn code(self) -> (n: u32)
        ensures
            n == peer_code_num(self),
    {
        match self {
            PeerCode::UpdatePeerList => 0,
            PeerCode::UpdateSourceList => 1,
        }
    }

    /// Reads a code back from its wire number; unknown numbers are refused.
    pub fn from_code(n: u32) -> (r: Option<PeerCode>)
        ensures
            r is Some <==> n < 2,
            r matches Some(c) ==> peer_code_num(c) == n,
    {
        match n {
            0 => Some(PeerCode::UpdatePeerList),
            1 => Some(PeerCode::UpdateSourceList),
            _ => None,
        }
    }
}

/// The 4 little-endian bytes of a 32-bit word.
pub open spec fn le4(n: u32) -> Seq<u8> {
    seq![
        (n % 256) as u8,
        ((n / 256) % 256) as u8,
        ((n / 0x10000) % 256) as u8,
        ((n / 0x1000000) % 256) as u8,
    ]
}

/// The 32-bit word 4 little-endian bytes denote.
pub open spec fn le4_val(s: Seq<u8>) -> int {
    s[0] + s[1] * 256 + s[2] * 0x10000 + s[3] * 0x1000000
}

/// Reading back the written bytes gives the word.
pub proof fn lemma_le4_round_trip(n: u32)
    ensures
        le4_val(le4(n)) == n,
{
    assert(n % 256 + ((n / 256) % 256) * 256 + ((n / 0x10000) % 256) * 0x10000 + ((n / 0x1000000)
        % 256) * 0x1000000 == n) by (bit_vector);
}

/// Writes a 32-bit word as 4 little-endian bytes.
pub fn encode_u32_le(n: u32) -> (r: Vec<u8>)
    ensures
        r@ == le4(n),
{
    let mut r: Vec<u8> = Vec::new();
    r.push((n % 256) as u8);
    r.push((n / 256 % 256) as u8);
    r.push((n / 0x10000 % 256) as u8);
    r.push((n / 0x1000000 % 256) as u8);
    proof {
        assert(r@ =~= le4(n));
    }
    r
}

/// Reads a 32-bit word from 4 little-endian bytes.
pub fn decode_u32_le(b: &[u8], start: usize) -> (n: u32)
    requires
        start + 4 <= b@.len(),
    ensures
        le4(n) == b@.subrange(start as int, start + 4),
        n == le4_val(b@.subrange(start as int, start + 4)),
{
    let b0 = b[start];
    let b1 = b[start + 1];
    let b2 = b[start + 2];
    let b3 = b[start + 3];
    let n = (b0 as u32) + (b1 as u32) * 256 + (b2 as u32) * 0x10000 + (b3 as u32) * 0x1000000;
    proof {
        let s = b@.subrange(start as int, start + 4);
        assert(s[0] == b0 && s[1] == b1 && s[2] == b2 && s[3] == b3);
        assert(n % 256 == b0 && (n / 256) % 256 == b1 && (n / 0x10000) % 256 == b2 && (n
            / 0x1000000) % 256 == b3) by (bit_vector)
            requires
                n == (b0 as u32) + (b1 as u32) * 256 + (b2 as u32) * 0x10000 + (b3 as u32)
                    * 0x1000000,
        ;
        assert(le4(n) =~= s);
    }
    n
}

/// One framed peer message: the code's 4 little-endian bytes, the payload
/// length's 4 little-endian bytes, and the payload.
pub open spec fn frame_spec(code: PeerCode, payload: Seq<u8>) -> Seq<u8> {
    le4(peer_code_num(code)) + le4(payload.len() as u32) + payload
}

/// Writes one framed peer message.
pub fn encode_peer_frame(code: PeerCode, payload: &[u8]) -> (r: Vec<u8>)
    requires
        payload@.len() <= u32::MAX,
    ensures
        r@ == frame_spec(code, payload@),
{
    let mut r = encode_u32_le(code.code());
    let mut l = encode_u32_le(payload.len() as u32);
    r.append(&mut l);
    let mut p = vstd::slice::slice_to_vec(payload);
    r.append(&mut p);
    proof {
        assert(r@ =~= frame_spec(code, payload@));
    }
    r
}

/// Reads one framed peer message back; a short buffer, an unknown code or
/// a length that does not match is refused.
pub fn decode_peer_frame(buf: &[u8]) -> (r: Option<(PeerCode, Vec<u8>)>)
    ensures
        r matches Some(p) ==> buf@ == frame_spec(p.0, p.1@) && p.1@.len() <= u32::MAX,
        r is None ==> !(exists|c: PeerCode, pl: Seq<u8>|
            pl.len() <= u32::MAX && buf@ == #[trigger] frame_spec(c, pl)),
{
    proof {
        if exists|c: PeerCode, pl: Seq<u8>|
            pl.len() <= u32::MAX && buf@ == #[trigger] frame_spec(c, pl) {
            let (c, pl) = choose|c: PeerCode, pl: Seq<u8>|
                pl.len() <= u32::MAX && buf@ == #[trigger] frame_spec(c, pl);
            lemma_le4_round_trip(peer_code_num(c));
            lemma_le4_round_trip(pl.len() as u32);
            assert(buf@.len() == 8 + pl.len());
            assert(buf@.subrange(0, 4) =~= le4(peer_code_num(c)));
            assert(buf@.subrange(4, 8) =~= le4(pl.len() as u32));
            assert(buf@.skip(8) =~= pl);
        }
    }
    if buf.len() < 8 {
        return None;
    }
    let code_num = decode_u32_le(buf, 0);
    let len = decode_u32_le(buf, 4);
    let code = match PeerCode::from_code(code_num) {
        Some(c) => c,
        None => {
            return None;
        },
    };
    if !(buf.len() - 8 == len as usize) {
        return None;
    }
    let payload = vstd::slice::slice_to_vec(
        vstd::slice::slice_subrange(buf, 8, buf.len()),
    );
    proof {
        lemma_le4_round_trip(peer_code_num(code));
        lemma_le4_round_trip(payload@.len() as u32);
        assert(buf@ =~= frame_spec(code, payload@));
    }
    Some((code, payload))
}

/// The sibling versions the peer transport accepts: at least 0.12.0 and
/// below 0.16.0.
pub open spec fn peer_version_ok(major: nat, minor: nat) -> bool {
    major == 0 && 12 <= minor <= 15
}

/// Decides a sibling's version from its parsed major and minor numbers.
pub fn accept_peer_version(major: u64, minor: u64) -> (r: bool)
    ensures
        r == peer_version_ok(major as nat, minor as nat),
{
    major == 0 && 12 <= minor && minor <= 15
}

/// Why a client dial failed, as the transport reports it.
#[derive(Clone, Copy, Debug, PartialEq, Eq, Structural)]
pub enum DialFailure {
    ConnectionClosed,
    ApplicationClosed,
    Reset,
    TimedOut,
    Other,
}

/// The failures worth another dial: a closed, reset or timed-out
/// connection retries after a pause; anything else ends the dial task and
/// leaves the peer discoverable by later gossip.
pub open spec fn dial_retryable(f: DialFailure) -> bool {
    match f {
        DialFailure::ConnectionClosed
        | DialFailure::ApplicationClosed
        | DialFailure::Reset
        | DialFailure::TimedOut => true,
        DialFailure::Other => false,
    }
}

impl DialFailure {
    /// Whether this failure is worth another dial.
    pub fn should_retry(&self) -> (r: bool)
        ensures
            r == dial_retryable(*self),
    {
        match self {
            DialFailure::ConnectionClosed
            | DialFailure::ApplicationClosed
            | DialFailure::Reset
            | DialFailure::TimedOut => true,
            DialFailure::Other => false,
        }
    }
}

/// A frame names its code and payload: no two messages share a wire form.
pub proof fn lemma_frame_spec_injective(c1: PeerCode, p1: Seq<u8>, c2: PeerCode, p2: Seq<u8>)
    requires
        p1.len() <= u32::MAX,
        p2.len() <= u32::MAX,
        frame_spec(c1, p1) == frame_spec(c2, p2),
    ensures
        c1 == c2,
        p1 == p2,
{
    let f1 = frame_spec(c1, p1);
    let f2 = frame_spec(c2, p2);
    assert(f1.subrange(0, 4) =~= le4(peer_code_num(c1)));
    assert(f2.subrange(0, 4) =~= le4(peer_code_num(c2)));
    lemma_le4_round_trip(peer_code_num(c1));
    lemma_le4_round_trip(peer_code_num(c2));
    assert(peer_code_num(c1) == peer_code_num(c2));
    assert(f1.subrange(4, 8) =~= le4(p1.len() as u32));
    assert(f2.subrange(4, 8) =~= le4(p2.len() as u32));
    lemma_le4_round_trip(p1.len() as u32);
    lemma_le4_round_trip(p2.len() as u32);
    assert(p1.len() == p2.len());
    assert(f1.skip(8) =~= p1);
    assert(f2.skip(8) =~= p2);
}

/// A sibling engine: where to dial it and the host name its certificate
/// carries.
pub struct PeerInfo {
    pub ip: String,
    pub port: u16,
    pub host_name: String,
}

/// What identifies a peer: its address and host name.
pub open spec fn peer_view(p: PeerInfo) -> (Seq<char>, u16, Seq<char>) {
    (p.ip@, p.port, p.host_name@)
}

impl PeerInfo {
    /// The host name from the peer's certificate.
    pub fn get_host_name(&self) -> (r: String)
        ensures
            r@ == self.host_name@,
    {
        self.host_name.clone()
    }

    /// A second handle to the same peer.
    pub fn duplicate(&self) -> (r: PeerInfo)
        ensures
            peer_view(r) == peer_view(*self),
    {
        PeerInfo { ip: self.ip.clone(), port: self.port, host_name: self.host_name.clone() }
    }
}

/// One decimal digit.
pub open spec fn dec_digit(d: nat) -> Seq<char> {
    if d == 0 {
        seq!['0']
    } else if d == 1 {
        seq!['1']
    } else if d == 2 {
        seq!['2']
    } else if d == 3 {
        seq!['3']
    } else if d == 4 {
        seq!['4']
    } else if d == 5 {
        seq!['5']
    } else if d == 6 {
        seq!['6']
    } else if d == 7 {
        seq!['7']
    } else if d == 8 {
        seq!['8']
    } else {
        seq!['9']
    }
}

/// The decimal digits of a number, most significant first.
pub open spec fn dec_str(n: nat) -> Seq<char>
    decreases n,
{
    if n < 10 {
        dec_digit(n)
    } else {
        dec_str(n / 10) + dec_digit(n % 10)
    }
}

fn digit_str(d: u16) -> (r: &'static str)
    requires
        d < 10,
    ensures
        r@ == dec_digit(d as nat),
{
    proof {
        reveal_strlit("0");
        reveal_strlit("1");
        reveal_strlit("2");
        reveal_strlit("3");
        reveal_strlit("4");
        reveal_strlit("5");
        reveal_strlit("6");
        reveal_strlit("7");
        reveal_strlit("8");
        reveal_strlit("9");
        assert("0"@ =~= seq!['0']);
        assert("1"@ =~= seq!['1']);
        assert("2"@ =~= seq!['2']);
        assert("3"@ =~= seq!['3']);
        assert("4"@ =~= seq!['4']);
        assert("5"@ =~= seq!['5']);
        assert("6"@ =~= seq!['6']);
        assert("7"@ =~= seq!['7']);
        assert("8"@ =~= seq!['8']);
        assert("9"@ =~= seq!['9']);
    }
    match d {
        0 => "0",
        1 => "1",
        2 => "2",
        3 => "3",
        4 => "4",
        5 => "5",
        6 => "6",
        7 => "7",
        8 => "8",
        _ => "9",
    }
}

/// Appends a port number in decimal.
fn push_dec(s: &mut String, n: u16)
    ensures
        final (s)@ == old(s)@ + dec_str(n as nat),
    decreases n,
{
    if n >= 10 {
        push_dec(s, n / 10);
        s.append(digit_str(n % 10));
        proof {
            assert(old(s)@ + dec_str((n / 10) as nat) + dec_digit((n % 10) as nat) =~= old(s)@
                + (dec_str((n / 10) as nat) + dec_digit((n % 10) as nat)));
        }
    } else {
        s.append(digit_str(n));
    }
}

impl PeerInfo {
    /// The textual dial address `ip:port`, as the configuration document
    /// stores it.
    pub fn get_address(&self) -> (r: String)
        ensures
            r@ == self.ip@ + seq![':'] + dec_str(self.port as nat),
    {
        let mut r = self.ip.clone();
        r.append(":");
        proof {
            reveal_strlit(":");
            assert(":"@ =~= seq![':']);
        }
        push_dec(&mut r, self.port);
        proof {
            assert(self.ip@ + seq![':'] + dec_str(self.port as nat) =~= (self.ip@ + seq![':'])
                + dec_str(self.port as nat));
        }
        r
    }
}

/// The views of a run of peers.
pub open spec fn peer_views(s: Seq<PeerInfo>) -> Seq<(Seq<char>, u16, Seq<char>)> {
    Seq::new(s.len(), |i: int| peer_view(s[i]))
}

/// Whether a run of peer views holds the given one.
pub open spec fn has_peer(s: Seq<(Seq<char>, u16, Seq<char>)>, pv: (Seq<char>, u16, Seq<
    char,
>)) -> bool {
    exists|i: int| 0 <= i < s.len() && s[i] == pv
}

/// Compares two peers by identity.
pub fn peer_eq(a: &PeerInfo, b: &PeerInfo) -> (r: bool)
    ensures
        r == (peer_view(*a) == peer_view(*b)),
{
    let r = a.ip == b.ip && a.port == b.port && a.host_name == b.host_name;
    proof {
        if a.ip@ == b.ip@ && a.port == b.port && a.host_name@ == b.host_name@ {
            assert(peer_view(*a) == peer_view(*b));
        }
    }
    r
}

/// The engine's set of known peers.
pub struct PeerList {
    peers: Vec<PeerInfo>,
}

impl View for PeerList {
    type V = Seq<(Seq<char>, u16, Seq<char>)>;

    closed spec fn view(&self) -> Seq<(Seq<char>, u16, Seq<char>)> {
        peer_views(self.peers@)
    }
}

impl PeerList {
    /// Set semantics: no peer appears twice.
    pub open spec fn wf(self) -> bool {
        forall|i: int, j: int| 0 <= i < j < self@.len() ==> self@[i] != self@[j]
    }

    /// An empty peer set.
    pub fn new() -> (r: Self)
        ensures
            r.wf(),
            r@ == Seq::<(Seq<char>, u16, Seq<char>)>::empty(),
    {
        let r = PeerList { peers: Vec::new() };
        proof {
            assert(r@ =~= Seq::<(Seq<char>, u16, Seq<char>)>::empty());
        }
        r
    }

    /// How many peers are known.
    pub fn len(&self) -> (n: usize)
        ensures
            n == self@.len(),
    {
        self.peers.len()
    }

    /// A fresh copy of each known peer, for sending to a sibling.
    #[verifier::loop_isolation(false)]
    pub fn snapshot(&self) -> (r: Vec<PeerInfo>)
        ensures
            peer_views(r@) == self@,
    {
        let mut out: Vec<PeerInfo> = Vec::new();
        let n = self.peers.len();
        let mut i: usize = 0;
        while i < n
            invariant
                i <= n,
                out@.len() == i,
                forall|j: int| 0 <= j < i ==> peer_view(#[trigger] out@[j]) == self@[j],
            decreases n - i,
        {
            out.push(self.peers[i].duplicate());
            i += 1;
        }
        proof {
            assert(peer_views(out@) =~= self@);
        }
        out
    }

    /// Whether the set holds this peer.
    #[verifier::loop_isolation(false)]
    pub fn contains(&self, p: &PeerInfo) -> (r: bool)
        ensures
            r == has_peer(self@, peer_view(*p)),
    {
        let n = self.peers.len();
        let mut i: usize = 0;
        while i < n
            invariant
                i <= n,
                forall|j: int| 0 <= j < i ==> self@[j] != peer_view(*p),
            decreases n - i,
        {
            if peer_eq(&self.peers[i], p) {
                proof {
                    assert(self@[i as int] == peer_view(*p));
                }
                return true;
            }
            i += 1;
        }
        proof {
            if has_peer(self@, peer_view(*p)) {
                let j = choose|j: int| 0 <= j < self@.len() && self@[j] == peer_view(*p);
            }
        }
        false
    }

    /// The gossip merge: every received peer that does not carry this
    /// host's own IP and is not yet known joins the set; the newly learnt
    /// peers come back, for the caller to dial and to persist the set when
    /// any arrived.
    #[verifier::loop_isolation(false)]
    #[verifier::rlimit(50)]
    pub fn update_to_new_peer_list(&mut self, local_ip: &String, received: Vec<PeerInfo>) -> (added:
        Vec<PeerInfo>)
        requires
            old(self).wf(),
        ensures
            final (self).wf(),
            forall|pv: (Seq<char>, u16, Seq<char>)|
                #![trigger has_peer(final (self)@, pv)]
                has_peer(final (self)@, pv) <==> (has_peer(old(self)@, pv) || (has_peer(
                    peer_views(received@),
                    pv,
                ) && pv.0 != local_ip@)),
            forall|pv: (Seq<char>, u16, Seq<char>)|
                #![trigger has_peer(peer_views(added@), pv)]
                has_peer(peer_views(added@), pv) <==> (has_peer(peer_views(received@), pv)
                    && pv.0 != local_ip@ && !has_peer(old(self)@, pv)),
            forall|i: int, j: int|
                0 <= i < j < added@.len() ==> peer_views(added@)[i] != peer_views(added@)[j],
    {
        let ghost l0 = self@;
        let ghost rv = peer_views(received@);
        let mut added: Vec<PeerInfo> = Vec::new();
        let n = received.len();
        let mut i: usize = 0;
        while i < n
            invariant
                i <= n,
                n == received@.len(),
                self.wf(),
                forall|pv: (Seq<char>, u16, Seq<char>)|
                    #![trigger has_peer(self@, pv)]
                    has_peer(self@, pv) <==> (has_peer(l0, pv) || (has_peer(
                        peer_views(received@.take(i as int)),
                        pv,
                    ) && pv.0 != local_ip@)),
                forall|pv: (Seq<char>, u16, Seq<char>)|
                    #![trigger has_peer(peer_views(added@), pv)]
                    has_peer(peer_views(added@), pv) <==> (has_peer(
                        peer_views(received@.take(i as int)),
                        pv,
                    ) && pv.0 != local_ip@ && !has_peer(l0, pv)),
                forall|q: (Seq<char>, u16, Seq<char>)|
                    #![trigger has_peer(peer_views(added@), q)]
                    has_peer(peer_views(added@), q) ==> has_peer(self@, q),
                forall|x: int, y: int|
                    0 <= x < y < added@.len() ==> peer_views(added@)[x] != peer_views(
                        added@,
                    )[y],
            decreases n - i,
        {
            let ghost self0 = self@;
            let ghost added0 = peer_views(added@);
            let p = &received[i];
            let ghost pv = peer_view(received@[i as int]);
            proof {
                assert(peer_views(received@.take(i + 1)) =~= peer_views(
                    received@.take(i as int),
                ).push(pv));
            }
            let skip_own = p.ip == *local_ip;
            if !skip_own && !self.contains(p) {
                let c1 = p.duplicate();
                let c2 = p.duplicate();
                self.peers.push(c1);
                added.push(c2);
                proof {
                    assert(self@ =~= self0.push(pv));
                    assert(peer_views(added@) =~= added0.push(pv));
                    assert(!has_peer(self0, pv));
                    assert(!has_peer(l0, pv));
                    assert(!has_peer(peer_views(received@.take(i as int)), pv) || pv.0
                        == local_ip@ || has_peer(self0, pv));
                    assert(pv.0 != local_ip@);
                    assert(self.wf()) by {
                        assert forall|x: int, y: int|
                            0 <= x < y < self@.len() implies self@[x] != self@[y] by {
                            if y == self@.len() - 1 {
                                assert(self@[x] == self0[x]);
                                if self0[x] == pv {
                                    assert(has_peer(self0, pv));
                                }
                            } else {
                                assert(self@[x] == self0[x] && self@[y] == self0[y]);
                            }
                        }
                    }
                    assert forall|q: (Seq<char>, u16, Seq<char>)|
                        #![trigger has_peer(self@, q)]
                        has_peer(self@, q) <==> (has_peer(l0, q) || (has_peer(
                        peer_views(received@.take(i + 1)),
                        q,
                    ) && q.0 != local_ip@)) by {
                        lemma_has_peer_push(self0, pv, q);
                        lemma_has_peer_push(peer_views(received@.take(i as int)), pv, q);
                        assert(has_peer(self@, q) == has_peer(self0.push(pv), q));
                        assert(pv.0 != local_ip@);
                    }
                    assert forall|q: (Seq<char>, u16, Seq<char>)|
                        #![trigger has_peer(peer_views(added@), q)]
                        has_peer(peer_views(added@), q) <==> (has_peer(
                        peer_views(received@.take(i + 1)),
                        q,
                    ) && q.0 != local_ip@ && !has_peer(l0, q)) by {
                        lemma_has_peer_push(added0, pv, q);
                        lemma_has_peer_push(peer_views(received@.take(i as int)), pv, q);
                        assert(has_peer(peer_views(added@), q) == has_peer(
                            added0.push(pv),
                            q,
                        ));
                        assert(has_peer(peer_views(received@.take(i + 1)), q) == (has_peer(
                            peer_views(received@.take(i as int)),
                            q,
                        ) || q == pv));
                        if q == pv {
                            assert(has_peer(peer_views(added@), q));
                        }
                    }
                    assert forall|q: (Seq<char>, u16, Seq<char>)|
                        #![trigger has_peer(peer_views(added@), q)]
                        has_peer(peer_views(added@), q) implies has_peer(self@, q) by {
                        lemma_has_peer_push(added0, pv, q);
                        lemma_has_peer_push(self0, pv, q);
                        assert(has_peer(peer_views(added@), q) == has_peer(
                            added0.push(pv),
                            q,
                        ));
                        assert(has_peer(self@, q) == has_peer(self0.push(pv), q));
                    }
                    assert forall|x: int, y: int|
                        0 <= x < y < added@.len() implies peer_views(added@)[x] != peer_views(
                        added@,
                    )[y] by {
                        if y == added@.len() - 1 {
                            assert(peer_views(added@)[x] == added0[x]);
                            assert(peer_views(added@)[y] == pv);
                            if added0[x] == pv {
                                assert(has_peer(added0, pv));
                                assert(has_peer(self0, pv));
                            }
                        } else {
                            assert(peer_views(added@)[x] == added0[x] && peer_views(
                                added@,
                            )[y] == added0[y]);
                        }
                    }
                }
            } else {
                proof {
                    if skip_own {
                        assert(pv.0 == local_ip@);
                    } else {
                        assert(has_peer(self@, pv));
                    }
                    assert forall|q: (Seq<char>, u16, Seq<char>)|
                        #![trigger has_peer(self@, q)]
                        has_peer(self@, q) <==> (has_peer(l0, q) || (has_peer(
                        peer_views(received@.take(i + 1)),
                        q,
                    ) && q.0 != local_ip@)) by {
                        lemma_has_peer_push(peer_views(received@.take(i as int)), pv, q);
                    }
                    assert forall|q: (Seq<char>, u16, Seq<char>)|
                        #![trigger has_peer(peer_views(added@), q)]
                        has_peer(peer_views(added@), q) <==> (has_peer(
                        peer_views(received@.take(i + 1)),
                        q,
                    ) && q.0 != local_ip@ && !has_peer(l0, q)) by {
                        lemma_has_peer_push(peer_views(received@.take(i as int)), pv, q);
                        assert(has_peer(peer_views(received@.take(i + 1)), q) == (has_peer(
                            peer_views(received@.take(i as int)),
                            q,
                        ) || q == pv));
                        assert(has_peer(peer_views(added@), q) == (has_peer(
                            peer_views(received@.take(i as int)),
                            q,
                        ) && q.0 != local_ip@ && !has_peer(l0, q)));
                        if q == pv && !skip_own {
                            assert(has_peer(self@, pv));
                            assert(has_peer(l0, pv) || (has_peer(
                                peer_views(received@.take(i as int)),
                                pv,
                            ) && pv.0 != local_ip@));
                        }
                        if q == pv && skip_own {
                            assert(pv.0 == local_ip@);
                        }
                    }
                }
            }
            i += 1;
        }
        proof {
            assert(received@.take(n as int) =~= received@);
        }
        added
    }
}

proof fn lemma_has_peer_push(
    s: Seq<(Seq<char>, u16, Seq<char>)>,
    e: (Seq<char>, u16, Seq<char>),
    q: (Seq<char>, u16, Seq<char>),
)
    ensures
        has_peer(s.push(e), q) <==> (has_peer(s, q) || q == e),
{
    if has_peer(s.push(e), q) {
        let i = choose|i: int| 0 <= i < s.push(e).len() && s.push(e)[i] == q;
        if i < s.len() {
            assert(s[i] == q);
        }
    }
    if has_peer(s, q) {
        let i = choose|i: int| 0 <= i < s.len() && s[i] == q;
        assert(s.push(e)[i] == q);
    }
    if q == e {
        assert(s.push(e)[s.len() as int] == q);
    }
}

/// The live peer connections, keyed by the remote's certificate host name;
/// the value is the caller's handle for the surviving connection.
pub struct PeerConnMap {
    conns: Vec<(String, u64)>,
}

impl View for PeerConnMap {
    type V = Seq<(Seq<char>, u64)>;

    closed spec fn view(&self) -> Seq<(Seq<char>, u64)> {
        self.conns.deep_view()
    }
}

/// Whether a connection map holds an entry for a host.
pub open spec fn has_host(s: Seq<(Seq<char>, u64)>, h: Seq<char>) -> bool {
    exists|i: int| 0 <= i < s.len() && (#[trigger] s[i]).0 == h
}

impl PeerConnMap {
    /// At most one surviving connection per remote host.
    pub open spec fn wf(self) -> bool {
        forall|i: int, j: int| 0 <= i < j < self@.len() ==> self@[i].0 != self@[j].0
    }

    /// Duplicate resolution is deterministic: however two engines come to
    /// dial each other, a well-formed map never holds two surviving
    /// connections to one host.
    pub proof fn lemma_at_most_one_connection(self, i: int, j: int)
        requires
            self.wf(),
            0 <= i < self@.len(),
            0 <= j < self@.len(),
            self@[i].0 == self@[j].0,
        ensures
            i == j,
    {
    }

    /// No connections yet.
    pub fn new() -> (r: Self)
        ensures
            r.wf(),
            r@ == Seq::<(Seq<char>, u64)>::empty(),
    {
        let r = PeerConnMap { conns: Vec::new() };
        proof {
            assert(r@ =~= Seq::<(Seq<char>, u64)>::empty());
        }
        r
    }

    proof fn lemma_deep(&self)
        ensures
            self@.len() == self.conns@.len(),
            forall|i: int|
                0 <= i < self.conns@.len() ==> self@[i] == (
                    (#[trigger] self.conns@[i]).0@,
                    self.conns@[i].1,
                ),
    {
        assert forall|i: int|
            0 <= i < self.conns@.len() implies self@[i] == (
            (#[trigger] self.conns@[i]).0@,
            self.conns@[i].1,
        ) by {
            assert(self.conns@[i].0.deep_view() == self.conns@[i].0@);
        }
    }

    /// Whether a connection to this host already survives.
    #[verifier::loop_isolation(false)]
    pub fn contains(&self, host_name: &String) -> (r: bool)
        ensures
            r == has_host(self@, host_name@),
    {
        proof {
            self.lemma_deep();
        }
        let n = self.conns.len();
        let mut i: usize = 0;
        while i < n
            invariant
                i <= n,
                n == self.conns@.len(),
                forall|j: int| 0 <= j < i ==> (#[trigger] self@[j]).0 != host_name@,
            decreases n - i,
        {
            if self.conns[i].0 == *host_name {
                proof {
                    assert(self@[i as int].0 == host_name@);
                }
                return true;
            }
            i += 1;
        }
        proof {
            if has_host(self@, host_name@) {
                let j = choose|j: int| 0 <= j < self@.len() && (#[trigger] self@[j]).0
                    == host_name@;
            }
        }
        false
    }

    /// Duplicate resolution: a new connection commits only when no
    /// connection to the same host survives; otherwise the newcomer is to
    /// be closed with reason `exist connection close` and the map stands.
    /// The first established connection wins, and the map never holds two
    /// connections to one host.
    #[verifier::loop_isolation(false)]
    pub fn try_register(&mut self, host_name: &String, conn_id: u64) -> (accepted: bool)
        requires
            old(self).wf(),
        ensures
            final (self).wf(),
            accepted == !has_host(old(self)@, host_name@),
            accepted ==> final (self)@ == old(self)@.push((host_name@, conn_id)),
            !accepted ==> final (self)@ == old(self)@,
            has_host(final (self)@, host_name@),
    {
        proof {
            self.lemma_deep();
        }
        if self.contains(host_name) {
            proof {
                assert(has_host(self@, host_name@));
            }
            return false;
        }
        let ghost s0 = self@;
        let ghost v0 = self.conns@;
        self.conns.push((host_name.clone(), conn_id));
        proof {
            self.lemma_deep();
            assert forall|j: int| 0 <= j < self@.len() implies self@[j] == s0.push(
                (host_name@, conn_id),
            )[j] by {
                if j < self@.len() - 1 {
                    assert(self.conns@[j] == v0[j]);
                    assert(s0[j] == (v0[j].0@, v0[j].1));
                }
            }
            assert(self@ =~= s0.push((host_name@, conn_id)));
            assert(self@[s0.len() as int].0 == host_name@);
            assert forall|i: int, j: int| 0 <= i < j < self@.len() implies self@[i].0
                != self@[j].0 by {
                if j == self@.len() - 1 {
                    if self@[i].0 == host_name@ {
                        assert(has_host(s0, host_name@));
                    }
                } else {
                    assert(self@[i] == s0[i] && self@[j] == s0[j]);
                }
            }
        }
        true
    }

    /// Forgets the surviving connection of a host, if any; task cleanup is
    /// idempotent.
    #[verifier::loop_isolation(false)]
    pub fn remove(&mut self, host_name: &String)
        requires
            old(self).wf(),
        ensures
            final (self).wf(),
            !has_host(final (self)@, host_name@),
            forall|h: Seq<char>|
                h != host_name@ ==> has_host(final (self)@, h) == has_host(old(self)@, h),
    {
        let ghost s0 = self@;
        proof {
            self.lemma_deep();
        }
        let ghost v0 = self.conns@;
        let mut kept: Vec<(String, u64)> = Vec::new();
        let n = self.conns.len();
        proof {
            assert(kept.deep_view() =~= Seq::<(Seq<char>, u64)>::empty());
        }
        let mut i: usize = 0;
        while i < n
            invariant
                i <= n,
                n == self.conns@.len(),
                self@ == s0,
                self.conns@ == v0,
                s0.len() == v0.len(),
                forall|j: int|
                    0 <= j < v0.len() ==> s0[j] == ((#[trigger] v0[j]).0@, v0[j].1),
                kept.deep_view().len() <= i,
                forall|j: int|
                    0 <= j < kept.deep_view().len() ==> (#[trigger] kept.deep_view()[j]).0
                        != host_name@,
                forall|h: Seq<char>|
                    h != host_name@ ==> has_host(kept.deep_view(), h) == has_host(
                        s0.take(i as int),
                        h,
                    ),
                forall|x: int, y: int|
                    0 <= x < y < kept.deep_view().len() ==> (#[trigger] kept.deep_view()[x]).0 != (
                    #[trigger] kept.deep_view()[y]).0,
            decreases n - i,
        {
            proof {
                assert(s0[i as int] == (v0[i as int].0@, v0[i as int].1));
                assert(s0.take(i + 1) =~= s0.take(i as int).push(s0[i as int]));
            }
            let ghost kd0 = kept.deep_view();
            let e = &self.conns[i];
            if !(e.0 == *host_name) {
                let ghost kv0 = kept@;
                proof {
                    assert forall|j: int|
                        0 <= j < kv0.len() implies kd0[j] == (
                        (#[trigger] kv0[j]).0@,
                        kv0[j].1,
                    ) by {
                        assert(kv0[j].0.deep_view() == kv0[j].0@);
                    }
                }
                kept.push((e.0.clone(), e.1));
                proof {
                    assert forall|j: int|
                        0 <= j < kept@.len() implies kept.deep_view()[j] == kd0.push(
                        s0[i as int],
                    )[j] by {
                        assert(kept.deep_view()[j] == (kept@[j].0@, kept@[j].1));
                        if j < kept@.len() - 1 {
                            assert(kept@[j] == kv0[j]);
                        }
                    }
                    assert(kept.deep_view() =~= kd0.push(s0[i as int]));
                    assert forall|h: Seq<char>|
                        h != host_name@ implies has_host(kept.deep_view(), h) == has_host(
                        s0.take(i + 1),
                        h,
                    ) by {
                        if h == s0[i as int].0 {
                            assert((#[trigger] kept.deep_view()[kd0.len() as int]).0 == h);
                            assert(has_host(kept.deep_view(), h));
                            assert((#[trigger] s0.take(i + 1)[i as int]).0 == h);
                            assert(has_host(s0.take(i + 1), h));
                        } else {
                            lemma_has_host_push(kd0, s0[i as int], h);
                            lemma_has_host_push(s0.take(i as int), s0[i as int], h);
                        }
                    }
                    // uniqueness: the pushed host comes from position i of a
                    // well-formed map, so it cannot sit in the kept prefix
                    assert forall|x: int, y: int|
                        0 <= x < y < kept.deep_view().len() implies (
                    #[trigger] kept.deep_view()[x]).0 != (#[trigger] kept.deep_view()[y]).0 by {
                        if y == kept.deep_view().len() - 1 {
                            assert(kept.deep_view()[x] == kd0[x]);
                            let h = kd0[x].0;
                            if h == s0[i as int].0 {
                                assert(h != host_name@);
                                assert(has_host(kd0, h));
                                assert(has_host(s0.take(i as int), h));
                                let w = choose|w: int|
                                    0 <= w < s0.take(i as int).len() && (#[trigger] s0.take(
                                        i as int,
                                    )[w]).0 == h;
                                assert(s0[w].0 == h && s0[i as int].0 == h);
                            }
                        } else {
                            assert(kept.deep_view()[x] == kd0[x] && kept.deep_view()[y]
                                == kd0[y]);
                        }
                    }
                }
            } else {
                proof {
                    assert(s0[i as int].0 == host_name@);
                    assert forall|h: Seq<char>|
                        h != host_name@ implies has_host(kept.deep_view(), h) == has_host(
                        s0.take(i + 1),
                        h,
                    ) by {
                        lemma_has_host_push(s0.take(i as int), s0[i as int], h);
                    }
                }
            }
            i += 1;
        }
        proof {
            assert(s0.take(n as int) =~= s0);
        }
        self.conns = kept;
    }
}

/// The sensor rosters the sibling engines have reported, keyed by the
/// peer's address.
pub struct PeerSourceMap {
    entries: Vec<(String, Vec<String>)>,
}

/// The roster a source map holds for an address, if any.
pub open spec fn sources_get(s: Seq<(Seq<char>, Seq<Seq<char>>)>, addr: Seq<char>) -> Option<
    Seq<Seq<char>>,
>
    decreases s.len(),
{
    if s.len() == 0 {
        None
    } else if s[0].0 == addr {
        Some(s[0].1)
    } else {
        sources_get(s.drop_first(), addr)
    }
}

proof fn lemma_sources_get_push(
    s: Seq<(Seq<char>, Seq<Seq<char>>)>,
    e: (Seq<char>, Seq<Seq<char>>),
    addr: Seq<char>,
)
    requires
        addr != e.0,
    ensures
        sources_get(s.push(e), addr) == sources_get(s, addr),
    decreases s.len(),
{
    if s.len() == 0 {
        assert(s.push(e)[0] == e);
        assert(s.push(e).drop_first() =~= s);
    } else {
        assert(s.push(e)[0] == s[0]);
        assert(s.push(e).drop_first() =~= s.drop_first().push(e));
        lemma_sources_get_push(s.drop_first(), e, addr);
    }
}

proof fn lemma_sources_get_snoc_self(
    s: Seq<(Seq<char>, Seq<Seq<char>>)>,
    e: (Seq<char>, Seq<Seq<char>>),
)
    requires
        forall|i: int| 0 <= i < s.len() ==> (#[trigger] s[i]).0 != e.0,
    ensures
        sources_get(s.push(e), e.0) == Some(e.1),
    decreases s.len(),
{
    if s.len() == 0 {
        assert(s.push(e)[0] == e);
    } else {
        assert(s.push(e)[0] == s[0]);
        assert(s[0].0 != e.0);
        assert(s.push(e).drop_first() =~= s.drop_first().push(e));
        assert(forall|i: int| 0 <= i < s.drop_first().len() ==> s.drop_first()[i] == s[i + 1]);
        lemma_sources_get_snoc_self(s.drop_first(), e);
    }
}

impl View for PeerSourceMap {
    type V = Seq<(Seq<char>, Seq<Seq<char>>)>;

    closed spec fn view(&self) -> Seq<(Seq<char>, Seq<Seq<char>>)> {
        self.entries.deep_view()
    }
}

impl PeerSourceMap {
    pub open spec fn wf(self) -> bool {
        forall|i: int, j: int| 0 <= i < j < self@.len() ==> self@[i].0 != self@[j].0
    }

    /// No rosters yet.
    pub fn new() -> (r: Self)
        ensures
            r.wf(),
            r@ == Seq::<(Seq<char>, Seq<Seq<char>>)>::empty(),
    {
        let r = PeerSourceMap { entries: Vec::new() };
        proof {
            assert(r@ =~= Seq::<(Seq<char>, Seq<Seq<char>>)>::empty());
        }
        r
    }

    proof fn lemma_deep(&self)
        ensures
            self@.len() == self.entries@.len(),
            forall|i: int|
                0 <= i < self.entries@.len() ==> self@[i] == (
                    (#[trigger] self.entries@[i]).0@,
                    self.entries@[i].1.deep_view(),
                ),
    {
        assert forall|i: int|
            0 <= i < self.entries@.len() implies self@[i] == (
            (#[trigger] self.entries@[i]).0@,
            self.entries@[i].1.deep_view(),
        ) by {
            assert(self.entries@[i].0.deep_view() == self.entries@[i].0@);
        }
    }

    /// Takes one peer's freshly gossiped roster: the peer's previous
    /// roster, if any, is replaced; every other peer's stands.
    #[verifier::loop_isolation(false)]
    pub fn update_to_new_source_list(&mut self, remote_addr: &String, source_list: Vec<String>)
        requires
            old(self).wf(),
        ensures
            final (self).wf(),
            sources_get(final (self)@, remote_addr@) == Some(source_list.deep_view()),
            forall|a: Seq<char>|
                a != remote_addr@ ==> sources_get(final (self)@, a) == sources_get(
                    old(self)@,
                    a,
                ),
    {
        self.remove(remote_addr);
        let ghost s0 = self@;
        proof {
            self.lemma_deep();
        }
        let ghost v0 = self.entries@;
        let ghost e = (remote_addr@, source_list.deep_view());
        self.entries.push((remote_addr.clone(), source_list));
        proof {
            lemma_sources_get_none_absent(s0, remote_addr@);
            self.lemma_deep();
            assert forall|j: int| 0 <= j < self@.len() implies self@[j] == s0.push(e)[j] by {
                if j < self@.len() - 1 {
                    assert(self.entries@[j] == v0[j]);
                    assert(s0[j] == (v0[j].0@, v0[j].1.deep_view()));
                }
            }
            assert(self@ =~= s0.push(e));
            lemma_sources_get_snoc_self(s0, e);
            assert forall|a: Seq<char>|
                a != remote_addr@ implies sources_get(self@, a) == sources_get(s0, a) by {
                lemma_sources_get_push(s0, e, a);
            }
            assert forall|i: int, j: int| 0 <= i < j < self@.len() implies self@[i].0
                != self@[j].0 by {
                if j == self@.len() - 1 {
                    if self@[i].0 == remote_addr@ {
                        let w = i;
                        assert(sources_get(s0, remote_addr@) is Some) by {
                            lemma_sources_get_at(s0, remote_addr@, w);
                        }
                    }
                } else {
                    assert(self@[i] == s0[i] && self@[j] == s0[j]);
                }
            }
        }
    }

    /// Forgets one peer's roster when its connection goes away; cleanup is
    /// idempotent.
    #[verifier::loop_isolation(false)]
    pub fn remove(&mut self, remote_addr: &String)
        requires
            old(self).wf(),
        ensures
            final (self).wf(),
            sources_get(final (self)@, remote_addr@) is None,
            forall|a: Seq<char>|
                a != remote_addr@ ==> sources_get(final (self)@, a) == sources_get(
                    old(self)@,
                    a,
                ),
    {
        let ghost s0 = self@;
        proof {
            self.lemma_deep();
        }
        let ghost v0 = self.entries@;
        let mut kept: Vec<(String, Vec<String>)> = Vec::new();
        let n = self.entries.len();
        proof {
            assert(kept.deep_view() =~= Seq::<(Seq<char>, Seq<Seq<char>>)>::empty());
        }
        let mut i: usize = 0;
        while i < n
            invariant
                i <= n,
                n == self.entries@.len(),
                self@ == s0,
                self.entries@ == v0,
                s0.len() == v0.len(),
                forall|j: int|
                    0 <= j < v0.len() ==> s0[j] == (
                        (#[trigger] v0[j]).0@,
                        v0[j].1.deep_view(),
                    ),
                kept.deep_view().len() <= i,
                forall|j: int|
                    0 <= j < kept.deep_view().len() ==> (#[trigger] kept.deep_view()[j]).0
                        != remote_addr@,
                forall|a: Seq<char>|
                    a != remote_addr@ ==> sources_get(kept.deep_view(), a) == sources_get(
                        s0.take(i as int),
                        a,
                    ),
                forall|x: int, y: int|
                    0 <= x < y < kept.deep_view().len() ==> (#[trigger] kept.deep_view()[x]).0
                        != (#[trigger] kept.deep_view()[y]).0,
            decreases n - i,
        {
            proof {
                assert(s0[i as int] == (v0[i as int].0@, v0[i as int].1.deep_view()));
                assert(s0.take(i + 1) =~= s0.take(i as int).push(s0[i as int]));
            }
            let ghost kd0 = kept.deep_view();
            if !(self.entries[i].0 == *remote_addr) {
                let ghost kv0 = kept@;
                proof {
                    assert forall|j: int|
                        0 <= j < kv0.len() implies kd0[j] == (
                        (#[trigger] kv0[j]).0@,
                        kv0[j].1.deep_view(),
                    ) by {
                        assert(kv0[j].0.deep_view() == kv0[j].0@);
                    }
                }
                let e = &self.entries[i];
                let mut sources_copy: Vec<String> = Vec::new();
                let m = e.1.len();
                let mut t: usize = 0;
                while t < m
                    invariant
                        t <= m,
                        m == e.1@.len(),
                        e == self.entries@[i as int],
                        i < n,
                        n == self.entries@.len(),
                        sources_copy@.len() == t,
                        forall|w: int|
                            0 <= w < t ==> (#[trigger] sources_copy@[w])@ == e.1@[w]@,
                    decreases m - t,
                {
                    sources_copy.push(e.1[t].clone());
                    t += 1;
                }
                proof {
                    assert(sources_copy.deep_view() =~= e.1.deep_view());
                }
                kept.push((e.0.clone(), sources_copy));
                proof {
                    assert forall|j: int|
                        0 <= j < kept@.len() implies kept.deep_view()[j] == kd0.push(
                        s0[i as int],
                    )[j] by {
                        assert(kept.deep_view()[j] == (kept@[j].0@, kept@[j].1.deep_view()));
                        if j < kept@.len() - 1 {
                            assert(kept@[j] == kv0[j]);
                        }
                    }
                    assert(kept.deep_view() =~= kd0.push(s0[i as int]));
                    assert forall|a: Seq<char>|
                        a != remote_addr@ implies sources_get(kept.deep_view(), a)
                        == sources_get(s0.take(i + 1), a) by {
                        if a == s0[i as int].0 {
                            assert forall|x: int|
                                0 <= x < kd0.len() implies (#[trigger] kd0[x]).0 != s0[
                                i as int
                            ].0 by {
                                if kd0[x].0 == s0[i as int].0 {
                                    lemma_sources_get_at(kd0, s0[i as int].0, x);
                                    assert(sources_get(s0.take(i as int), s0[i as int].0)
                                        is Some);
                                    let w = lemma_sources_get_some_at(
                                        s0.take(i as int),
                                        s0[i as int].0,
                                    );
                                    assert(s0[w].0 == s0[i as int].0);
                                }
                            }
                            assert forall|x: int|
                                0 <= x < s0.take(i as int).len() implies (#[trigger] s0.take(
                                i as int,
                            )[x]).0 != s0[i as int].0 by {
                                assert(s0.take(i as int)[x] == s0[x]);
                            }
                            lemma_sources_get_snoc_self(kd0, s0[i as int]);
                            lemma_sources_get_snoc_self(s0.take(i as int), s0[i as int]);
                        } else {
                            lemma_sources_get_push(kd0, s0[i as int], a);
                            lemma_sources_get_push(s0.take(i as int), s0[i as int], a);
                        }
                    }
                    assert forall|x: int, y: int|
                        0 <= x < y < kept.deep_view().len() implies (
                    #[trigger] kept.deep_view()[x]).0 != (#[trigger] kept.deep_view()[y]).0 by {
                        if y == kept.deep_view().len() - 1 {
                            assert(kept.deep_view()[x] == kd0[x]);
                            let h = kd0[x].0;
                            if h == s0[i as int].0 {
                                assert(sources_get(kept.deep_view(), h) is Some) by {
                                    lemma_sources_get_at(kept.deep_view(), h, x);
                                }
                                assert(sources_get(s0.take(i as int), h) is Some) by {
                                    assert(sources_get(kd0, h) == sources_get(
                                        s0.take(i as int),
                                        h,
                                    ));
                                    lemma_sources_get_at(kd0, h, x);
                                }
                                let w = lemma_sources_get_some_at(s0.take(i as int), h);
                                assert(s0[w].0 == h && s0[i as int].0 == h);
                            }
                        } else {
                            assert(kept.deep_view()[x] == kd0[x] && kept.deep_view()[y]
                                == kd0[y]);
                        }
                    }
                }
            } else {
                proof {
                    assert(s0[i as int].0 == remote_addr@);
                    assert forall|a: Seq<char>|
                        a != remote_addr@ implies sources_get(kept.deep_view(), a)
                        == sources_get(s0.take(i + 1), a) by {
                        lemma_sources_get_push(s0.take(i as int), s0[i as int], a);
                    }
                }
            }
            i += 1;
        }
        proof {
            assert(s0.take(n as int) =~= s0);
        }
        self.entries = kept;
        proof {
            lemma_sources_get_absent(self@, remote_addr@);
        }
    }
}

proof fn lemma_sources_get_at(s: Seq<(Seq<char>, Seq<Seq<char>>)>, addr: Seq<char>, i: int)
    requires
        0 <= i < s.len(),
        s[i].0 == addr,
    ensures
        sources_get(s, addr) is Some,
    decreases s.len(),
{
    if i > 0 && s[0].0 != addr {
        assert(s.drop_first()[i - 1] == s[i]);
        lemma_sources_get_at(s.drop_first(), addr, i - 1);
    }
}

proof fn lemma_sources_get_some_at(s: Seq<(Seq<char>, Seq<Seq<char>>)>, addr: Seq<char>) -> (i:
    int)
    requires
        sources_get(s, addr) is Some,
    ensures
        0 <= i < s.len(),
        s[i].0 == addr,
    decreases s.len(),
{
    if s[0].0 == addr {
        0
    } else {
        assert(forall|j: int| 0 <= j < s.drop_first().len() ==> s.drop_first()[j] == s[j + 1]);
        let k = lemma_sources_get_some_at(s.drop_first(), addr);
        k + 1
    }
}

proof fn lemma_sources_get_none_absent(s: Seq<(Seq<char>, Seq<Seq<char>>)>, addr: Seq<char>)
    requires
        sources_get(s, addr) is None,
    ensures
        forall|i: int| 0 <= i < s.len() ==> (#[trigger] s[i]).0 != addr,
    decreases s.len(),
{
    if s.len() > 0 {
        lemma_sources_get_none_absent(s.drop_first(), addr);
        assert forall|i: int| 0 <= i < s.len() implies (#[trigger] s[i]).0 != addr by {
            if i > 0 {
                assert(s.drop_first()[i - 1] == s[i]);
            }
        }
    }
}

proof fn lemma_sources_get_absent(s: Seq<(Seq<char>, Seq<Seq<char>>)>, addr: Seq<char>)
    requires
        forall|i: int| 0 <= i < s.len() ==> (#[trigger] s[i]).0 != addr,
    ensures
        sources_get(s, addr) is None,
    decreases s.len(),
{
    if s.len() > 0 {
        assert(forall|i: int| 0 <= i < s.drop_first().len() ==> s.drop_first()[i] == s[i + 1]);
        lemma_sources_get_absent(s.drop_first(), addr);
    }
}

proof fn lemma_has_host_push(s: Seq<(Seq<char>, u64)>, e: (Seq<char>, u64), h: Seq<char>)
    requires
        h != e.0,
    ensures
        has_host(s.push(e), h) == has_host(s, h),
{
    if has_host(s.push(e), h) {
        let i = choose|i: int| 0 <= i < s.push(e).len() && (#[trigger] s.push(e)[i]).0 == h;
        if i < s.len() {
            assert(s[i].0 == h);
        }
    }
    if has_host(s, h) {
        let i = choose|i: int| 0 <= i < s.len() && (#[trigger] s[i]).0 == h;
        assert(s.push(e)[i].0 == h);
    }
}

} // verus!
