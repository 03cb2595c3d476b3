//! The tracker client: the announce URL, the tracker's bencoded response,
//! and the compact peer list in it. The HTTP request itself is the caller's.
use vstd::prelude::*;

use crate::decimal::{decimal, push_decimal};
use crate::torrent::TorrentInfo;
use crate::value::{dict_get, encode_term, lookup, Term, Value};

verus! {

/// The lower-case hexadecimal digit of `d` (0 to 15).
pub open spec fn hex_digit(d: int) -> u8 {
    if d < 10 {
        (48 + d) as u8
    } else {
        (87 + d) as u8
    }
}

/// Every byte written as `%xx`.
pub open spec fn percent_encoded(b: Seq<u8>) -> Seq<u8>
    decreases b.len(),
{
    if b.len() == 0 {
        Seq::empty()
    } else {
        percent_encoded(b.drop_last()) + seq![37u8, hex_digit(b.last() as int / 16), hex_digit(b.last() as int % 16)]
    }
}

fn hex_digit_byte(d: u8) -> (r: u8)
    requires
        d < 16,
    ensures
        r == hex_digit(d as int),
{
    if d < 10 {
        48 + d
    } else {
        87 + d
    }
}

fn push_percent_encoded(out: &mut Vec<u8>, b: &[u8])
    ensures
        final(out)@ == old(out)@ + percent_encoded(b@),
{
    let ghost start = out@;
    let mut i: usize = 0;
    assert(percent_encoded(b@.subrange(0, 0)) =~= Seq::<u8>::empty());
    while i < b.len()
        invariant
            i <= b@.len(),
            out@ == start + percent_encoded(b@.subrange(0, i as int)),
        decreases b@.len() - i,
    {
        let c = b[i];
        out.push(37);
        out.push(hex_digit_byte(c / 16));
        out.push(hex_digit_byte(c % 16));
        proof {
            let s = b@.subrange(0, i + 1);
            assert(s.drop_last() =~= b@.subrange(0, i as int));
        }
        i = i + 1;
        assert(out@ =~= start + percent_encoded(b@.subrange(0, i as int)));
    }
    assert(b@.subrange(0, i as int) =~= b@);
}

/// The query of an announce request.
#[derive(Debug)]
pub struct TrackerRequest {
    /// the raw 20-byte info hash, percent-encoded in the URL
    pub info_hash: [u8; 20],
    /// the port this client listens on
    pub port: u32,
    /// this client's 20-byte peer id
    pub peer_id: [u8; 20],
    /// bytes uploaded so far
    pub uploaded: u32,
    /// bytes downloaded so far
    pub downloaded: u32,
    /// bytes left to download
    pub left: u32,
    /// 1 asks for the compact peer list
    pub compact: u32,
}

/// The GET URL of an announce: `announce` followed by the query.
pub open spec fn announce_url(announce: Seq<u8>, r: TrackerRequest) -> Seq<u8> {
    announce + seq![63u8, 112, 111, 114, 116, 61] + decimal(r.port as nat)
        + seq![38u8, 112, 101, 101, 114, 95, 105, 100, 61] + r.peer_id@
        + seq![38u8, 117, 112, 108, 111, 97, 100, 101, 100, 61] + decimal(r.uploaded as nat)
        + seq![38u8, 100, 111, 119, 110, 108, 111, 97, 100, 101, 100, 61] + decimal(r.downloaded as nat)
        + seq![38u8, 108, 101, 102, 116, 61] + decimal(r.left as nat)
        + seq![38u8, 99, 111, 109, 112, 97, 99, 116, 61] + decimal(r.compact as nat)
        + seq![38u8, 105, 110, 102, 111, 95, 104, 97, 115, 104, 61] + percent_encoded(r.info_hash@)
}

pub(crate) fn push_bytes(out: &mut Vec<u8>, src: Vec<u8>)
    ensures
        final(out)@ == old(out)@ + src@,
{
    let mut src = src;
    out.append(&mut src);
}

impl TrackerRequest {
    /// The first announce for `source`: port 6881, nothing transferred yet,
    /// the whole length left, compact peer list.
    pub fn new<T: TorrentInfo>(source: &T, peer_id: [u8; 20]) -> (r: TrackerRequest)
        ensures
            r.info_hash@ == source.info_hash_view(),
            r.port == 6881,
            r.peer_id == peer_id,
            r.uploaded == 0,
            r.downloaded == 0,
            r.left == source.length_view(),
            r.compact == 1,
    {
        TrackerRequest {
            info_hash: source.info_hash(),
            port: 6881,
            peer_id,
            uploaded: 0,
            downloaded: 0,
            left: source.length(),
            compact: 1,
        }
    }

    /// The GET URL against the tracker at `announce`.
    pub fn url(&self, announce: &[u8]) -> (r: Vec<u8>)
        ensures
            r@ == announce_url(announce@, *self),
    {
        let mut out = vstd::slice::slice_to_vec(announce);
        push_bytes(&mut out, vec![63u8, 112, 111, 114, 116, 61]);
        push_decimal(&mut out, self.port as u64);
        push_bytes(&mut out, vec![38u8, 112, 101, 101, 114, 95, 105, 100, 61]);
        push_bytes(&mut out, vstd::slice::slice_to_vec(self.peer_id.as_slice()));
        push_bytes(&mut out, vec![38u8, 117, 112, 108, 111, 97, 100, 101, 100, 61]);
        push_decimal(&mut out, self.uploaded as u64);
        push_bytes(&mut out, vec![38u8, 100, 111, 119, 110, 108, 111, 97, 100, 101, 100, 61]);
        push_decimal(&mut out, self.downloaded as u64);
        push_bytes(&mut out, vec![38u8, 108, 101, 102, 116, 61]);
        push_decimal(&mut out, self.left as u64);
        push_bytes(&mut out, vec![38u8, 99, 111, 109, 112, 97, 99, 116, 61]);
        push_decimal(&mut out, self.compact as u64);
        push_bytes(&mut out, vec![38u8, 105, 110, 102, 111, 95, 104, 97, 115, 104, 61]);
        push_percent_encoded(&mut out, self.info_hash.as_slice());
        assert(out@ =~= announce_url(announce@, *self));
        out
    }
}

/// An IPv4 peer: four address bytes and a port.
#[derive(Debug, Clone, Copy, PartialEq, Eq)]
pub struct Peer {
    pub ip: [u8; 4],
    pub port: u16,
}

/// Peer `i` of a compact peer list: six bytes, the address then the port
/// in big-endian order.
pub open spec fn compact_peer(b: Seq<u8>, i: int) -> (Seq<u8>, int) {
    (b.subrange(6 * i, 6 * i + 4), b[6 * i + 4] * 256 + b[6 * i + 5])
}

/// `ps` is the compact peer list `b`, in order.
pub open spec fn peers_of(ps: Seq<Peer>, b: Seq<u8>) -> bool {
    &&& ps.len() * 6 == b.len()
    &&& forall|i: int| 0 <= i < ps.len() ==> (#[trigger] ps[i]).ip@ == compact_peer(b, i).0 && ps[i].port as int == compact_peer(b, i).1
}

/// Why a tracker response is refused.
#[derive(Debug, Clone, Copy, PartialEq, Eq)]
pub enum TrackerError {
    /// The body is not a bencoding.
    Malformed,
    NotADict,
    MissingInterval,
    MissingPeers,
    /// The peer list's length is not a multiple of six.
    BadPeers,
}

/// "interval"
pub open spec fn interval_key() -> Seq<u8> {
    seq![105u8, 110, 116, 101, 114, 118, 97, 108]
}

/// "peers"
pub open spec fn peers_key() -> Seq<u8> {
    seq![112u8, 101, 101, 114, 115]
}

/// The first check, in reading order, that a tracker response fails.
pub open spec fn response_error(t: Term) -> Option<TrackerError> {
    match t {
        Term::Dict(es) => {
            if !(lookup(es, interval_key()) matches Some(Term::Int(_))) {
                Some(TrackerError::MissingInterval)
            } else if !(lookup(es, peers_key()) matches Some(Term::Str(_))) {
                Some(TrackerError::MissingPeers)
            } else {
                None
            }
        },
        _ => Some(TrackerError::NotADict),
    }
}

/// A tracker's answer to an announce.
#[derive(Debug)]
pub struct TrackerResponse {
    /// seconds the tracker asks to wait before the next announce
    pub interval: i64,
    /// the compact peer list
    pub peers: Vec<u8>,
}

impl TrackerResponse {
    /// Reads `interval` and `peers` from a tracker response.
    pub fn from_value(value: Value) -> (r: Result<TrackerResponse, TrackerError>)
        ensures
            match r {
                Ok(tr) => response_error(value@) is None && lookup(value@->Dict_0, interval_key())
                    == Some(Term::Int(tr.interval as int)) && lookup(value@->Dict_0, peers_key()) == Some(
                    Term::Str(tr.peers@),
                ),
                Err(e) => response_error(value@) == Some(e),
            },
    {
        let es = match &value {
            Value::Dict(es) => es,
            _ => {
                return Err(TrackerError::NotADict);
            },
        };
        let ik: Vec<u8> = vec![105u8, 110, 116, 101, 114, 118, 97, 108];
        let pk: Vec<u8> = vec![112u8, 101, 101, 114, 115];
        assert(ik@ =~= interval_key());
        assert(pk@ =~= peers_key());
        let interval = match dict_get(es, ik.as_slice()) {
            Some(Value::Integer(i)) => *i,
            _ => {
                return Err(TrackerError::MissingInterval);
            },
        };
        let peers = match dict_get(es, pk.as_slice()) {
            Some(Value::String(p)) => vstd::slice::slice_to_vec(p.as_slice()),
            _ => {
                return Err(TrackerError::MissingPeers);
            },
        };
        Ok(TrackerResponse { interval, peers })
    }
}

/// Reads a compact peer list.
pub fn parse_peers(compact: &[u8]) -> (r: Result<Vec<Peer>, TrackerError>)
    ensures
        match r {
            Ok(ps) => compact@.len() % 6 == 0 && peers_of(ps@, compact@),
            Err(e) => compact@.len() % 6 != 0 && e == TrackerError::BadPeers,
        },
{
    if compact.len() % 6 != 0 {
        return Err(TrackerError::BadPeers);
    }
    let n = compact.len() / 6;
    let mut out: Vec<Peer> = Vec::new();
    let mut i: usize = 0;
    while i < n
        invariant
            n == compact@.len() / 6,
            compact@.len() % 6 == 0,
            compact@.len() <= usize::MAX,
            i <= n,
            out@.len() == i,
            forall|j: int| 0 <= j < i ==> (#[trigger] out@[j]).ip@ == compact_peer(compact@, j).0 && out@[j].port as int == compact_peer(compact@, j).1,
        decreases n - i,
    {
        assert(6 * i + 6 <= compact@.len()) by (nonlinear_arith)
            requires
                i < n,
                n == compact@.len() / 6,
        ;
        let k = 6 * i;
        let mut ip: [u8; 4] = [0u8; 4];
        ip[0] = compact[k];
        ip[1] = compact[k + 1];
        ip[2] = compact[k + 2];
        ip[3] = compact[k + 3];
        let port: u16 = (compact[k + 4] as u16) * 256 + compact[k + 5] as u16;
        assert(ip@ =~= compact@.subrange(k as int, k + 4));
        out.push(Peer { ip, port });
        i = i + 1;
    }
    Ok(out)
}

/// `t` is an acceptable tracker response.
pub open spec fn response_ok(t: Term) -> bool {
    &&& response_error(t) is None
    &&& lookup(t->Dict_0, peers_key())->Some_0->Str_0.len() % 6 == 0
}

/// Reads the peers out of the body of a tracker's HTTP response.
pub fn peers_from_response(body: &[u8]) -> (r: Result<Vec<Peer>, TrackerError>)
    ensures
        r is Ok <==> exists|t: Term| t.wf() && encode_term(t) == body@ && response_ok(t),
        r matches Ok(ps) ==> forall|t: Term| t.wf() && encode_term(t) == body@ ==> peers_of(ps@, lookup(t->Dict_0, peers_key())->Some_0->Str_0),
        r == Err::<Vec<Peer>, TrackerError>(TrackerError::Malformed) <==> !exists|t: Term| t.wf() && encode_term(t) == body@,
        forall|t: Term| t.wf() && encode_term(t) == body@ ==> match r {
            Ok(_) => response_ok(t),
            Err(TrackerError::Malformed) => false,
            Err(TrackerError::BadPeers) => response_error(t) is None && !response_ok(t),
            Err(e) => response_error(t) == Some(e),
        },
{
    let value = match Value::decode(body) {
        Ok(v) => v,
        Err(_) => {
            return Err(TrackerError::Malformed);
        },
    };
    let ghost t = value@;
    let tr = TrackerResponse::from_value(value)?;
    let r = parse_peers(tr.peers.as_slice());
    proof {
        if r is Ok {
            assert(response_ok(t));
        }
    }
    r
}

} // verus!
