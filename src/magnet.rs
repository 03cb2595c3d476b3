//! Magnet links: reading `xt`, `dn` and `tr` out of a magnet URI, and the
//! metadata extension that fetches the `info` dictionary from a peer.
use vstd::prelude::*;

use crate::peer::copy_into;
use crate::torrent::{
    info_error, info_term, lemma_rebuilt_info, rebuilt_info, sha1_of, Info, MetainfoError,
    TorrentInfo,
};
use crate::tracker::push_bytes;
use crate::value::{
    bytes_equal, decode_bencoded_value, dict_get, encode_term, encodes_at, entries_model,
    lemma_entries_model, lookup, Term, Value,
};

verus! {

/// The query pairs of `uri`, percent-decoded and in order, when it parses
/// as a URL.
pub uninterp spec fn url_query_pairs(uri: Seq<char>) -> Option<Seq<(Seq<char>, Seq<char>)>>;

pub open spec fn pairs_view(v: Seq<(String, String)>) -> Seq<(Seq<char>, Seq<char>)> {
    Seq::new(v.len(), |i: int| (v[i].0@, v[i].1@))
}

/// Relies on `reqwest::Url::parse` (the `url` crate) and `Url::query_pairs`:
/// whether `uri` parses as a URL and, if so, its percent-decoded query pairs
/// in order. Both depend on the text alone.
#[verifier::external_body]
fn uri_query_pairs(uri: &str) -> (r: Option<Vec<(String, String)>>)
    ensures
        match r {
            Some(v) => url_query_pairs(uri@) == Some(pairs_view(v@)),
            None => url_query_pairs(uri@) is None,
        },
{
    match reqwest::Url::parse(uri) {
        Ok(u) => Some(u.query_pairs().map(|(k, v)| (k.into_owned(), v.into_owned())).collect()),
        Err(_) => None,
    }
}

#[verifier::external_type_specification]
#[verifier::external_body]
pub struct ExFromHexError(hex::FromHexError);

/// The value of a hexadecimal digit of either case.
pub open spec fn hex_value(c: u8) -> int {
    if 48 <= c <= 57 {
        c - 48
    } else if 97 <= c <= 102 {
        c - 87
    } else {
        c - 55
    }
}

pub open spec fn is_hex_digit(c: u8) -> bool {
    (48 <= c <= 57) || (97 <= c <= 102) || (65 <= c <= 70)
}

/// The bytes that pairs of hexadecimal digits spell, if `s` is such pairs.
pub open spec fn hex_decoded(s: Seq<u8>) -> Option<Seq<u8>> {
    if s.len() % 2 == 0 && forall|i: int| 0 <= i < s.len() ==> is_hex_digit(#[trigger] s[i]) {
        Some(Seq::new(s.len() / 2, |i: int| (hex_value(s[2 * i]) * 16 + hex_value(s[2 * i + 1])) as u8))
    } else {
        None
    }
}

/// Relies on `hex::decode`: each pair of hexadecimal digits (either case)
/// becomes one byte; an odd length or any other character is an error.
#[verifier::external_body]
fn hex_decode(s: &[u8]) -> (r: Result<Vec<u8>, hex::FromHexError>)
    ensures
        match r {
            Ok(v) => hex_decoded(s@) == Some(v@),
            Err(_) => hex_decoded(s@) is None,
        },
{
    hex::decode(s)
}

/// The value of the last pair under `key`: a later pair overrides an earlier one.
pub open spec fn last_value(ps: Seq<(Seq<char>, Seq<char>)>, key: Seq<char>) -> Option<Seq<char>>
    decreases ps.len(),
{
    if ps.len() == 0 {
        None
    } else if ps.last().0 == key {
        Some(ps.last().1)
    } else {
        last_value(ps.drop_last(), key)
    }
}

fn find_last(pairs: &Vec<(String, String)>, key: &String) -> (r: Option<usize>)
    ensures
        match r {
            Some(j) => j < pairs@.len() && last_value(pairs_view(pairs@), key@) == Some(pairs@[j as int].1@),
            None => last_value(pairs_view(pairs@), key@) is None,
        },
{
    let ghost pv = pairs_view(pairs@);
    let mut found: Option<usize> = None;
    let mut i: usize = 0;
    while i < pairs.len()
        invariant
            i <= pairs@.len(),
            pv == pairs_view(pairs@),
            match found {
                Some(j) => j < i && last_value(pv.subrange(0, i as int), key@) == Some(pairs@[j as int].1@),
                None => last_value(pv.subrange(0, i as int), key@) is None,
            },
        decreases pairs@.len() - i,
    {
        proof {
            assert(pv.subrange(0, i + 1).drop_last() =~= pv.subrange(0, i as int));
            assert(pv.subrange(0, i + 1).last() == pv[i as int]);
        }
        if pairs[i].0 == *key {
            found = Some(i);
        }
        i = i + 1;
    }
    assert(pv.subrange(0, i as int) =~= pv);
    found
}

/// The part of `b` after its last `:` (all of `b` if it has none).
pub open spec fn after_last_colon(b: Seq<u8>) -> Seq<u8>
    decreases b.len(),
{
    if b.len() == 0 {
        b
    } else if b.last() == 58 {
        Seq::empty()
    } else {
        after_last_colon(b.drop_last()).push(b.last())
    }
}

fn last_segment(b: &[u8]) -> (r: &[u8])
    ensures
        r@ == after_last_colon(b@),
{
    let mut start: usize = 0;
    let mut i: usize = 0;
    assert(after_last_colon(b@.subrange(0, 0)) =~= b@.subrange(0, 0));
    while i < b.len()
        invariant
            start <= i <= b@.len(),
            after_last_colon(b@.subrange(0, i as int)) == b@.subrange(start as int, i as int),
        decreases b@.len() - i,
    {
        proof {
            assert(b@.subrange(0, i + 1).drop_last() =~= b@.subrange(0, i as int));
        }
        if b[i] == 58 {
            start = i + 1;
        }
        i = i + 1;
        assert(after_last_colon(b@.subrange(0, i as int)) =~= b@.subrange(start as int, i as int));
    }
    assert(b@.subrange(0, i as int) =~= b@);
    vstd::slice::slice_subrange(b, start, b.len())
}

/// Why a magnet URI is refused.
#[derive(Debug, Clone, Copy, PartialEq, Eq)]
pub enum MagnetError {
    /// The URI does not parse as a URL.
    NotAUrl,
    /// No `tr` parameter.
    MissingTracker,
    /// No `dn` parameter.
    MissingName,
    /// No `xt` parameter.
    MissingInfoHash,
    /// What follows the last `:` of `xt` is not 40 hexadecimal digits.
    BadInfoHash,
}

pub open spec fn tr_key() -> Seq<char> {
    seq!['t', 'r']
}

pub open spec fn dn_key() -> Seq<char> {
    seq!['d', 'n']
}

pub open spec fn xt_key() -> Seq<char> {
    seq!['x', 't']
}

/// The 20-byte info hash that an `xt` value names, if it names one.
pub open spec fn xt_info_hash(xt: Seq<char>) -> Option<Seq<u8>> {
    let h = hex_decoded(after_last_colon(vstd::utf8::encode_utf8(xt)));
    if h matches Some(x) && x.len() == 20 {
        h
    } else {
        None
    }
}

/// The tracker URL, name and info hash that a magnet URI gives, or why it
/// gives none.
pub open spec fn magnet_fields(uri: Seq<char>) -> Result<(Seq<char>, Seq<char>, Seq<u8>), MagnetError> {
    match url_query_pairs(uri) {
        None => Err(MagnetError::NotAUrl),
        Some(ps) => {
            if last_value(ps, tr_key()) is None {
                Err(MagnetError::MissingTracker)
            } else if last_value(ps, dn_key()) is None {
                Err(MagnetError::MissingName)
            } else if last_value(ps, xt_key()) is None {
                Err(MagnetError::MissingInfoHash)
            } else if xt_info_hash(last_value(ps, xt_key())->Some_0) is None {
                Err(MagnetError::BadInfoHash)
            } else {
                Ok(
                    (
                        last_value(ps, tr_key())->Some_0,
                        last_value(ps, dn_key())->Some_0,
                        xt_info_hash(last_value(ps, xt_key())->Some_0)->Some_0,
                    ),
                )
            }
        },
    }
}

/// A magnet link: `magnet:?xt=urn:btih:<40 hex digits>&dn=<name>&tr=<tracker URL>`.
#[derive(Debug)]
pub struct Magnet {
    pub tracker_url: String,
    /// the name of the file to be downloaded
    pub name: String,
    /// the info hash decoded from the 40 hexadecimal digits of `xt`
    pub info_hash: [u8; 20],
}

impl Magnet {
    /// Reads a magnet URI.
    pub fn parse(uri: &str) -> (r: Result<Magnet, MagnetError>)
        ensures
            match r {
                Ok(m) => magnet_fields(uri@) == Ok::<_, MagnetError>((m.tracker_url@, m.name@, m.info_hash@)),
                Err(e) => magnet_fields(uri@) == Err::<(Seq<char>, Seq<char>, Seq<u8>), MagnetError>(e),
            },
    {
        let pairs = match uri_query_pairs(uri) {
            Some(p) => p,
            None => {
                return Err(MagnetError::NotAUrl);
            },
        };
        let tr = "tr".to_owned();
        let dn = "dn".to_owned();
        let xt = "xt".to_owned();
        proof {
            reveal_strlit("tr");
            reveal_strlit("dn");
            reveal_strlit("xt");
            assert(tr@ =~= tr_key());
            assert(dn@ =~= dn_key());
            assert(xt@ =~= xt_key());
        }
        let tracker_url = match find_last(&pairs, &tr) {
            Some(j) => pairs[j].1.clone(),
            None => {
                return Err(MagnetError::MissingTracker);
            },
        };
        let name = match find_last(&pairs, &dn) {
            Some(j) => pairs[j].1.clone(),
            None => {
                return Err(MagnetError::MissingName);
            },
        };
        let xt_value = match find_last(&pairs, &xt) {
            Some(j) => &pairs[j].1,
            None => {
                return Err(MagnetError::MissingInfoHash);
            },
        };
        let digits = last_segment(xt_value.as_str().as_bytes());
        let decoded = match hex_decode(digits) {
            Ok(d) => d,
            Err(_) => {
                return Err(MagnetError::BadInfoHash);
            },
        };
        if decoded.len() != 20 {
            return Err(MagnetError::BadInfoHash);
        }
        let mut info_hash: [u8; 20] = [0u8; 20];
        copy_into(&mut info_hash, decoded.as_slice(), 0);
        assert(decoded@.subrange(0, 20) =~= decoded@);
        Ok(Magnet { tracker_url, name, info_hash })
    }
}

impl TorrentInfo for Magnet {
    open spec fn announce_view(&self) -> Seq<u8> {
        vstd::utf8::encode_utf8(self.tracker_url@)
    }

    open spec fn info_hash_view(&self) -> Seq<u8> {
        self.info_hash@
    }

    /// Stands in for the unknown length until the metadata arrives.
    open spec fn length_view(&self) -> u32 {
        1
    }

    fn announce(&self) -> (r: Vec<u8>) {
        vstd::slice::slice_to_vec(self.tracker_url.as_str().as_bytes())
    }

    fn info_hash(&self) -> (r: [u8; 20]) {
        self.info_hash
    }

    fn length(&self) -> (r: u32) {
        1
    }
}

/// "m"
pub open spec fn key_m() -> Seq<u8> {
    seq![109u8]
}

/// "ut_metadata"
pub open spec fn key_ut_metadata() -> Seq<u8> {
    seq![117u8, 116, 95, 109, 101, 116, 97, 100, 97, 116, 97]
}

/// "ut_pex"
pub open spec fn key_ut_pex() -> Seq<u8> {
    seq![117u8, 116, 95, 112, 101, 120]
}

/// "msg_type"
pub open spec fn key_msg_type() -> Seq<u8> {
    seq![109u8, 115, 103, 95, 116, 121, 112, 101]
}

/// "piece"
pub open spec fn key_piece() -> Seq<u8> {
    seq![112u8, 105, 101, 99, 101]
}

/// The message ID under which this client receives `ut_metadata` messages.
pub const OUR_UT_METADATA_ID: u8 = 1;

/// `{"m": {"ut_metadata": 1, "ut_pex": 2}}`
pub open spec fn extension_handshake_term() -> Term {
    Term::Dict(
        seq![
            (
                key_m(),
                Term::Dict(seq![(key_ut_metadata(), Term::Int(1)), (key_ut_pex(), Term::Int(2))]),
            ),
        ],
    )
}

/// `{"msg_type": 0, "piece": 0}`: a request for the first metadata piece.
pub open spec fn metadata_request_term() -> Term {
    Term::Dict(seq![(key_msg_type(), Term::Int(0)), (key_piece(), Term::Int(0))])
}

/// The payload of the extension handshake: sub-ID 0, then the bencoded
/// dictionary that announces `ut_metadata` and `ut_pex`.
pub fn extension_handshake_payload() -> (r: Vec<u8>)
    ensures
        r@ == seq![0u8] + encode_term(extension_handshake_term()),
{
    let inner_entries: Vec<(Vec<u8>, Value)> = vec![
        (vec![117u8, 116, 95, 109, 101, 116, 97, 100, 97, 116, 97], Value::Integer(1)),
        (vec![117u8, 116, 95, 112, 101, 120], Value::Integer(2)),
    ];
    proof {
        lemma_entries_model(inner_entries@);
        assert(entries_model(inner_entries@) =~= extension_handshake_term()->Dict_0[0].1->Dict_0);
    }
    let inner = Value::Dict(inner_entries);
    assert(inner@ == extension_handshake_term()->Dict_0[0].1);
    let ghost gi = inner;
    let mk: Vec<u8> = vec![109u8];
    assert(mk@ =~= key_m());
    let outer_entries: Vec<(Vec<u8>, Value)> = vec![(mk, inner)];
    proof {
        lemma_entries_model(outer_entries@);
        assert(outer_entries@[0].1 == gi);
        assert(entries_model(outer_entries@)[0] == (key_m(), gi@));
        assert(entries_model(outer_entries@) =~= extension_handshake_term()->Dict_0);
    }
    let outer = Value::Dict(outer_entries);
    let mut out: Vec<u8> = vec![0u8];
    push_bytes(&mut out, outer.encode());
    assert(out@ =~= seq![0u8] + encode_term(extension_handshake_term()));
    out
}

/// The payload that asks a peer, under its `ut_metadata` ID, for the first
/// piece of the metadata.
pub fn metadata_request_payload(peer_ut_metadata: u8) -> (r: Vec<u8>)
    ensures
        r@ == seq![peer_ut_metadata] + encode_term(metadata_request_term()),
{
    let entries: Vec<(Vec<u8>, Value)> = vec![
        (vec![109u8, 115, 103, 95, 116, 121, 112, 101], Value::Integer(0)),
        (vec![112u8, 105, 101, 99, 101], Value::Integer(0)),
    ];
    proof {
        lemma_entries_model(entries@);
        assert(entries_model(entries@) =~= metadata_request_term()->Dict_0);
    }
    let v = Value::Dict(entries);
    let mut out: Vec<u8> = vec![peer_ut_metadata];
    push_bytes(&mut out, v.encode());
    assert(out@ =~= seq![peer_ut_metadata] + encode_term(metadata_request_term()));
    out
}

/// Why an extension message, or the metadata it carries, is refused.
#[derive(Debug, Clone, Copy, PartialEq, Eq)]
pub enum ExtensionError {
    /// The payload is empty or has another sub-ID than expected.
    UnexpectedMessage,
    /// The bencoded part does not decode.
    Malformed,
    /// The peer's handshake names no usable `ut_metadata` ID.
    NoMetadataSupport,
    /// The metadata is not a valid `info` dictionary.
    BadMetadata(MetainfoError),
    /// The metadata does not hash to the magnet's info hash.
    InfoHashMismatch,
}

/// The `ut_metadata` message ID that a peer's extension handshake announces.
pub open spec fn peer_ut_metadata(t: Term) -> Option<int> {
    match t {
        Term::Dict(es) => match lookup(es, key_m()) {
            Some(Term::Dict(ms)) => match lookup(ms, key_ut_metadata()) {
                Some(Term::Int(i)) => if 0 < i <= 255 {
                    Some(i)
                } else {
                    None
                },
                _ => None,
            },
            _ => None,
        },
        _ => None,
    }
}

/// Reads a peer's extension handshake and returns its `ut_metadata` ID.
pub fn parse_extension_handshake(payload: &[u8]) -> (r: Result<u8, ExtensionError>)
    ensures
        r is Ok <==> payload@.len() > 0 && payload@[0] == 0 && exists|t: Term|
            t.wf() && #[trigger] encodes_at(t, payload@.subrange(1, payload@.len() as int), 0)
                && peer_ut_metadata(t) is Some,
        r matches Ok(id) ==> forall|t: Term|
            t.wf() && #[trigger] encodes_at(t, payload@.subrange(1, payload@.len() as int), 0)
                ==> peer_ut_metadata(t) == Some(id as int),
        r == Err::<u8, ExtensionError>(ExtensionError::UnexpectedMessage) <==> payload@.len() == 0
            || payload@[0] != 0,
        r == Err::<u8, ExtensionError>(ExtensionError::Malformed) <==> payload@.len() > 0 && payload@[0] == 0
            && !exists|t: Term| t.wf() && #[trigger] encodes_at(t, payload@.subrange(1, payload@.len() as int), 0),
{
    if payload.len() == 0 || payload[0] != 0 {
        return Err(ExtensionError::UnexpectedMessage);
    }
    let body = vstd::slice::slice_subrange(payload, 1, payload.len());
    let (v, _rest) = match decode_bencoded_value(body) {
        Ok(x) => x,
        Err(_) => {
            return Err(ExtensionError::Malformed);
        },
    };
    let es = match &v {
        Value::Dict(es) => es,
        _ => {
            return Err(ExtensionError::NoMetadataSupport);
        },
    };
    let mk: Vec<u8> = vec![109u8];
    let uk: Vec<u8> = vec![117u8, 116, 95, 109, 101, 116, 97, 100, 97, 116, 97];
    assert(mk@ =~= key_m());
    assert(uk@ =~= key_ut_metadata());
    let ms = match dict_get(es, mk.as_slice()) {
        Some(Value::Dict(ms)) => ms,
        _ => {
            return Err(ExtensionError::NoMetadataSupport);
        },
    };
    match dict_get(ms, uk.as_slice()) {
        Some(Value::Integer(i)) => {
            if 0 < *i && *i <= 255 {
                Ok(*i as u8)
            } else {
                Err(ExtensionError::NoMetadataSupport)
            }
        },
        _ => Err(ExtensionError::NoMetadataSupport),
    }
}

/// `payload` is our sub-ID, the header `h`, then the `info` dictionary `t`.
pub open spec fn metadata_parts(payload: Seq<u8>, h: Term, t: Term) -> bool {
    &&& payload.len() > 0
    &&& payload[0] == OUR_UT_METADATA_ID
    &&& h.wf()
    &&& t.wf()
    &&& payload.subrange(1, payload.len() as int) == encode_term(h) + encode_term(t)
}

/// The reply carries a valid `info` dictionary whose canonical encoding
/// hashes to `info_hash`.
pub open spec fn metadata_ok(payload: Seq<u8>, info_hash: Seq<u8>) -> bool {
    exists|h: Term, t: Term|
        #[trigger] metadata_parts(payload, h, t) && info_error(t) is None && sha1_of(
            encode_term(rebuilt_info(t)),
        ) == info_hash
}

/// Reads the reply `<sub-ID><bencoded header><info dictionary>` to a
/// metadata request and returns the `info` it carries, provided it hashes to
/// `info_hash`.
pub fn info_from_metadata(payload: &[u8], info_hash: &[u8; 20]) -> (r: Result<Info, ExtensionError>)
    ensures
        r is Ok <==> metadata_ok(payload@, info_hash@),
        r matches Ok(info) ==> info.wf() && sha1_of(encode_term(info_term(info))) == info_hash@
            && exists|h: Term, t: Term| #[trigger] metadata_parts(payload@, h, t) && info_term(info) == rebuilt_info(t),
        r == Err::<Info, ExtensionError>(ExtensionError::UnexpectedMessage) <==> payload@.len() == 0
            || payload@[0] != OUR_UT_METADATA_ID,
{
    if payload.len() == 0 || payload[0] != OUR_UT_METADATA_ID {
        return Err(ExtensionError::UnexpectedMessage);
    }
    let body = vstd::slice::slice_subrange(payload, 1, payload.len());
    proof {
        assert forall|h: Term, t: Term| #[trigger] metadata_parts(payload@, h, t) implies encodes_at(h, body@, 0) && body@.subrange(encode_term(h).len() as int, body@.len() as int) == encode_term(t) by {
            assert(body@.subrange(0, encode_term(h).len() as int) =~= encode_term(h));
            assert(body@.subrange(encode_term(h).len() as int, body@.len() as int) =~= encode_term(t));
        }
    }
    let (header, rest) = match decode_bencoded_value(body) {
        Ok(x) => x,
        Err(_) => {
            return Err(ExtensionError::Malformed);
        },
    };
    let metadata = match Value::decode(rest) {
        Ok(v) => v,
        Err(_) => {
            return Err(ExtensionError::Malformed);
        },
    };
    proof {
        assert forall|h: Term, t: Term| #[trigger] metadata_parts(payload@, h, t) implies h == header@ && t == metadata@ by {
            assert(encodes_at(h, body@, 0));
        }
        assert(metadata_parts(payload@, header@, metadata@)) by {
            assert(payload@.subrange(1, payload@.len() as int) =~= body@);
        }
    }
    let info = match Info::from_value(&metadata) {
        Ok(i) => i,
        Err(e) => {
            return Err(ExtensionError::BadMetadata(e));
        },
    };
    proof {
        lemma_rebuilt_info(info, metadata@);
    }
    let h = info.hash();
    if !bytes_equal(h.as_slice(), info_hash.as_slice()) {
        return Err(ExtensionError::InfoHashMismatch);
    }
    Ok(info)
}

} // verus!
