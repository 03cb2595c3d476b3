//! The metainfo model: `Info` and `Torrent` read from bencoded dictionaries,
//! the canonical `info` dictionary rebuilt from the model, its SHA-1 identity
//! (the info hash), and the sizes of the pieces.
use vstd::prelude::*;

use sha1::Digest;

use crate::value::{
    bytes_lt, dict_get, encode_term, entries_model, law_dict_keys_ascending, lemma_entries_model,
    lookup, Term, Value,
};

verus! {

/// The SHA-1 digest of a byte sequence.
pub uninterp spec fn sha1_of(data: Seq<u8>) -> Seq<u8>;

/// Relies on `sha1::Sha1::digest` (through `Digest`): the SHA-1 digest of
/// `data`, which depends on the bytes alone.
#[verifier::external_body]
pub(crate) fn sha1_digest(data: &[u8]) -> (r: [u8; 20])
    ensures
        r@ == sha1_of(data@),
{
    sha1::Sha1::digest(data).into()
}

/// The metainfo fields that this client reads.
#[derive(Debug, Clone, Copy, PartialEq, Eq)]
pub enum Field {
    Announce,
    Info,
    Length,
    Name,
    PieceLength,
    Pieces,
}

/// Why a dictionary does not describe a torrent.
#[derive(Debug, Clone, Copy, PartialEq, Eq)]
pub enum MetainfoError {
    NotADict,
    Missing(Field),
    WrongType(Field),
    OutOfRange(Field),
    /// `length` does not fit the number of pieces and the piece length.
    Inconsistent,
}

/// The dictionary key of each field.
pub open spec fn key_of(f: Field) -> Seq<u8> {
    match f {
        Field::Announce => seq![97u8, 110, 110, 111, 117, 110, 99, 101],
        Field::Info => seq![105u8, 110, 102, 111],
        Field::Length => seq![108u8, 101, 110, 103, 116, 104],
        Field::Name => seq![110u8, 97, 109, 101],
        Field::PieceLength => seq![112u8, 105, 101, 99, 101, 32, 108, 101, 110, 103, 116, 104],
        Field::Pieces => seq![112u8, 105, 101, 99, 101, 115],
    }
}

fn field_key(f: Field) -> (r: Vec<u8>)
    ensures
        r@ == key_of(f),
{
    let r: Vec<u8> = match f {
        Field::Announce => vec![97u8, 110, 110, 111, 117, 110, 99, 101],
        Field::Info => vec![105u8, 110, 102, 111],
        Field::Length => vec![108u8, 101, 110, 103, 116, 104],
        Field::Name => vec![110u8, 97, 109, 101],
        Field::PieceLength => vec![112u8, 105, 101, 99, 101, 32, 108, 101, 110, 103, 116, 104],
        Field::Pieces => vec![112u8, 105, 101, 99, 101, 115],
    };
    assert(r@ =~= key_of(f));
    r
}

/// The integer under field `f`, or why there is none.
pub open spec fn int_field(es: Seq<(Seq<u8>, Term)>, f: Field) -> Result<int, MetainfoError> {
    match lookup(es, key_of(f)) {
        None => Err(MetainfoError::Missing(f)),
        Some(Term::Int(i)) => Ok(i),
        Some(_) => Err(MetainfoError::WrongType(f)),
    }
}

/// The byte string under field `f`, or why there is none.
pub open spec fn str_field(es: Seq<(Seq<u8>, Term)>, f: Field) -> Result<Seq<u8>, MetainfoError> {
    match lookup(es, key_of(f)) {
        None => Err(MetainfoError::Missing(f)),
        Some(Term::Str(s)) => Ok(s),
        Some(_) => Err(MetainfoError::WrongType(f)),
    }
}

/// The piece hashes laid end to end.
pub open spec fn flatten(hs: Seq<[u8; 20]>) -> Seq<u8>
    decreases hs.len(),
{
    if hs.len() == 0 {
        Seq::empty()
    } else {
        flatten(hs.drop_last()) + hs.last()@
    }
}

/// The lengths fit together: `n` pieces of `pl` bytes, the last one holding
/// between 1 and `pl` bytes.
pub open spec fn sizes_fit(length: int, pl: int, n: int) -> bool {
    &&& n >= 1
    &&& pl >= 1
    &&& (n - 1) * pl < length <= n * pl
}

/// The first check, in reading order, that an `info` dictionary fails.
pub open spec fn info_error(t: Term) -> Option<MetainfoError> {
    match t {
        Term::Dict(es) => {
            let length = int_field(es, Field::Length);
            let name = str_field(es, Field::Name);
            let pl = int_field(es, Field::PieceLength);
            let pieces = str_field(es, Field::Pieces);
            if length is Err {
                Some(length->Err_0)
            } else if !(0 <= length->Ok_0 <= u32::MAX) {
                Some(MetainfoError::OutOfRange(Field::Length))
            } else if name is Err {
                Some(name->Err_0)
            } else if pl is Err {
                Some(pl->Err_0)
            } else if !(1 <= pl->Ok_0 <= u32::MAX) {
                Some(MetainfoError::OutOfRange(Field::PieceLength))
            } else if pieces is Err {
                Some(pieces->Err_0)
            } else if pieces->Ok_0.len() == 0 || pieces->Ok_0.len() % 20 != 0 {
                Some(MetainfoError::OutOfRange(Field::Pieces))
            } else if !sizes_fit(length->Ok_0, pl->Ok_0, (pieces->Ok_0.len() / 20) as int) {
                Some(MetainfoError::Inconsistent)
            } else {
                None
            }
        },
        _ => Some(MetainfoError::NotADict),
    }
}

/// The metadata of a single-file torrent.
#[derive(Debug)]
pub struct Info {
    /// size of the file in bytes
    pub length: u32,
    /// suggested file name, as raw bytes
    pub name: Vec<u8>,
    /// number of bytes in each piece but possibly the last
    pub piece_length: u32,
    /// the SHA-1 hash of each piece
    pub pieces: Vec<[u8; 20]>,
}

/// `info` holds what the dictionary `t` says.
pub open spec fn describes(info: Info, t: Term) -> bool {
    match t {
        Term::Dict(es) => {
            &&& int_field(es, Field::Length) == Ok::<int, MetainfoError>(info.length as int)
            &&& str_field(es, Field::Name) == Ok::<Seq<u8>, MetainfoError>(info.name@)
            &&& int_field(es, Field::PieceLength) == Ok::<int, MetainfoError>(info.piece_length as int)
            &&& str_field(es, Field::Pieces) == Ok::<Seq<u8>, MetainfoError>(flatten(info.pieces@))
        },
        _ => false,
    }
}

/// The canonical `info` dictionary of the model, keys in ascending order.
pub open spec fn info_term(info: Info) -> Term {
    Term::Dict(
        seq![
            (key_of(Field::Length), Term::Int(info.length as int)),
            (key_of(Field::Name), Term::Str(info.name@)),
            (key_of(Field::PieceLength), Term::Int(info.piece_length as int)),
            (key_of(Field::Pieces), Term::Str(flatten(info.pieces@))),
        ],
    )
}

fn get_int(es: &Vec<(Vec<u8>, Value)>, f: Field) -> (r: Result<i64, MetainfoError>)
    ensures
        match r {
            Ok(i) => int_field(entries_model(es@), f) == Ok::<int, MetainfoError>(i as int),
            Err(e) => int_field(entries_model(es@), f) == Err::<int, MetainfoError>(e),
        },
{
    let key = field_key(f);
    match dict_get(es, key.as_slice()) {
        None => Err(MetainfoError::Missing(f)),
        Some(Value::Integer(i)) => Ok(*i),
        Some(_) => Err(MetainfoError::WrongType(f)),
    }
}

fn get_bytes<'a>(es: &'a Vec<(Vec<u8>, Value)>, f: Field) -> (r: Result<&'a Vec<u8>, MetainfoError>)
    ensures
        match r {
            Ok(s) => str_field(entries_model(es@), f) == Ok::<Seq<u8>, MetainfoError>(s@),
            Err(e) => str_field(entries_model(es@), f) == Err::<Seq<u8>, MetainfoError>(e),
        },
{
    let key = field_key(f);
    match dict_get(es, key.as_slice()) {
        None => Err(MetainfoError::Missing(f)),
        Some(Value::String(s)) => Ok(s),
        Some(_) => Err(MetainfoError::WrongType(f)),
    }
}

/// The 20 bytes of `raw` from `k` on.
fn hash_at(raw: &[u8], k: usize) -> (h: [u8; 20])
    requires
        k + 20 <= raw@.len(),
    ensures
        h@ == raw@.subrange(k as int, k + 20),
{
    let _len = raw.len();
    let mut h: [u8; 20] = [0u8; 20];
    let mut j: usize = 0;
    while j < 20
        invariant
            j <= 20,
            k + 20 <= raw@.len(),
            raw@.len() <= usize::MAX,
            h@.len() == 20,
            forall|i: int| 0 <= i < j ==> h@[i] == raw@[k + i],
        decreases 20 - j,
    {
        h[j] = raw[k + j];
        j = j + 1;
    }
    assert(h@ =~= raw@.subrange(k as int, k + 20));
    h
}

/// Cuts the raw `pieces` string into 20-byte hashes.
fn split_hashes(raw: &[u8]) -> (r: Vec<[u8; 20]>)
    requires
        raw@.len() % 20 == 0,
    ensures
        flatten(r@) == raw@,
        r@.len() == raw@.len() / 20,
{
    let n = raw.len() / 20;
    let mut out: Vec<[u8; 20]> = Vec::new();
    let mut i: usize = 0;
    assert(raw@.subrange(0, 0) =~= flatten(out@));
    while i < n
        invariant
            n == raw@.len() / 20,
            raw@.len() % 20 == 0,
            raw@.len() <= usize::MAX,
            i <= n,
            out@.len() == i,
            flatten(out@) == raw@.subrange(0, 20 * i),
        decreases n - i,
    {
        assert(20 * i + 20 <= raw@.len()) by (nonlinear_arith)
            requires
                i < n,
                n == raw@.len() / 20,
        ;
        let h = hash_at(raw, 20 * i);
        proof {
            assert(out@.push(h).drop_last() =~= out@);
            assert(raw@.subrange(0, 20 * (i + 1)) =~= raw@.subrange(0, 20 * i) + h@);
        }
        out.push(h);
        i = i + 1;
    }
    assert(raw@.subrange(0, 20 * n) =~= raw@);
    out
}

impl Info {
    /// The invariant of a torrent's sizes: at least one piece, and `length`
    /// fills all pieces but the last, which holds between 1 and
    /// `piece_length` bytes.
    pub open spec fn wf(&self) -> bool {
        sizes_fit(self.length as int, self.piece_length as int, self.pieces@.len() as int)
    }

    /// Reads an `info` dictionary. Fails with the first check that fails, in
    /// the order of `info_error`.
    pub fn from_value(value: &Value) -> (r: Result<Info, MetainfoError>)
        ensures
            match r {
                Ok(info) => info_error(value@) is None && info.wf() && describes(info, value@),
                Err(e) => info_error(value@) == Some(e),
            },
    {
        let es = match value {
            Value::Dict(es) => es,
            _ => {
                return Err(MetainfoError::NotADict);
            },
        };
        let length = get_int(es, Field::Length)?;
        if length < 0 || length > 4294967295 {
            return Err(MetainfoError::OutOfRange(Field::Length));
        }
        let name = get_bytes(es, Field::Name)?;
        let piece_length = get_int(es, Field::PieceLength)?;
        if piece_length < 1 || piece_length > 4294967295 {
            return Err(MetainfoError::OutOfRange(Field::PieceLength));
        }
        let raw = get_bytes(es, Field::Pieces)?;
        if raw.len() == 0 || raw.len() % 20 != 0 {
            return Err(MetainfoError::OutOfRange(Field::Pieces));
        }
        let n = raw.len() / 20;
        let length = length as u32;
        let piece_length = piece_length as u32;
        // (n - 1) * piece_length < length <= n * piece_length, in 128 bits
        assert((n as int) * (piece_length as int) <= 0x1_0000_0000_0000_0000 * 0x1_0000_0000
            && (n as int) * (piece_length as int) >= piece_length as int) by (nonlinear_arith)
            requires
                1 <= n <= 0x1_0000_0000_0000_0000,
                piece_length <= 0x1_0000_0000,
        ;
        let full = (n as u128) * (piece_length as u128);
        proof {
            assert(full - piece_length == (n - 1) * piece_length) by (nonlinear_arith)
                requires full == n * piece_length;
        }
        if !(full - (piece_length as u128) < length as u128 && length as u128 <= full) {
            return Err(MetainfoError::Inconsistent);
        }
        let pieces = split_hashes(raw.as_slice());
        Ok(Info { length, name: vstd::slice::slice_to_vec(name.as_slice()), piece_length, pieces })
    }
}

impl Info {
    /// The canonical `info` dictionary of this model.
    pub fn to_value(&self) -> (r: Value)
        ensures
            r@ == info_term(*self),
            r@.wf(),
    {
        let mut raw: Vec<u8> = Vec::new();
        let mut i: usize = 0;
        assert(flatten(self.pieces@.subrange(0, 0)) =~= raw@);
        while i < self.pieces.len()
            invariant
                i <= self.pieces@.len(),
                raw@ == flatten(self.pieces@.subrange(0, i as int)),
            decreases self.pieces@.len() - i,
        {
            let h = &self.pieces[i];
            let mut j: usize = 0;
            let ghost start = raw@;
            while j < 20
                invariant
                    j <= 20,
                    h@.len() == 20,
                    raw@ == start + h@.subrange(0, j as int),
                decreases 20 - j,
            {
                raw.push(h[j]);
                j = j + 1;
                assert(raw@ =~= start + h@.subrange(0, j as int));
            }
            proof {
                let hs = self.pieces@.subrange(0, i + 1);
                assert(hs.drop_last() =~= self.pieces@.subrange(0, i as int));
                assert(h@.subrange(0, 20) =~= h@);
            }
            i = i + 1;
        }
        assert(self.pieces@.subrange(0, i as int) =~= self.pieces@);
        let entries: Vec<(Vec<u8>, Value)> = vec![
            (field_key(Field::Length), Value::Integer(self.length as i64)),
            (field_key(Field::Name), Value::String(vstd::slice::slice_to_vec(self.name.as_slice()))),
            (field_key(Field::PieceLength), Value::Integer(self.piece_length as i64)),
            (field_key(Field::Pieces), Value::String(raw)),
        ];
        let r = Value::Dict(entries);
        proof {
            lemma_entries_model(entries@);
            let es = entries_model(entries@);
            let want = info_term(*self)->Dict_0;
            assert(es =~= want);
            reveal_with_fuel(bytes_lt, 8);
            assert(bytes_lt(want[0].0, want[1].0));
            assert(bytes_lt(want[1].0, want[2].0));
            assert(bytes_lt(want[2].0, want[3].0));
            let t = r@;
            assert(decreases_to!(t => t->Dict_0));
            assert forall|k: int| 0 <= k < es.len() implies (#[trigger] es[k]).1.wf() by {
                assert(decreases_to!(es => es[k]));
                assert(decreases_to!(es[k] => es[k].1));
            }
        }
        r
    }

    /// The info hash: the SHA-1 of the canonical encoding of `to_value`.
    pub fn hash(&self) -> (r: [u8; 20])
        ensures
            r@ == sha1_of(encode_term(info_term(*self))),
    {
        let v = self.to_value();
        let bytes = v.encode();
        sha1_digest(bytes.as_slice())
    }

    /// The length of piece `i`: `piece_length`, except for a last piece that
    /// `piece_length` does not divide.
    pub open spec fn piece_size(&self, i: int) -> int {
        let rem = self.length as int % self.piece_length as int;
        if i == self.pieces@.len() - 1 && rem != 0 {
            rem
        } else {
            self.piece_length as int
        }
    }

    /// The length in bytes of piece `index`.
    pub fn piece_len(&self, index: u32) -> (r: u32)
        requires
            self.wf(),
            index < self.pieces@.len(),
        ensures
            r == self.piece_size(index as int),
    {
        let n = self.pieces.len();
        let rem = self.length % self.piece_length;
        if index as usize == n - 1 && rem != 0 {
            rem
        } else {
            self.piece_length
        }
    }

    /// The number of pieces.
    pub fn piece_count(&self) -> (r: u32)
        requires
            self.wf(),
        ensures
            r == self.pieces@.len(),
    {
        proof {
            let n = self.pieces@.len() as int;
            let pl = self.piece_length as int;
            assert(n - 1 <= (n - 1) * pl) by (nonlinear_arith)
                requires n >= 1, pl >= 1;
        }
        self.pieces.len() as u32
    }
}

/// The total length of the first `k` pieces.
pub open spec fn pieces_total(info: Info, k: int) -> int
    decreases k,
{
    if k <= 0 {
        0
    } else {
        pieces_total(info, k - 1) + info.piece_size(k - 1)
    }
}

proof fn lemma_full_pieces_total(info: Info, k: int)
    requires
        info.wf(),
        0 <= k <= info.pieces@.len() - 1,
    ensures
        pieces_total(info, k) == k * info.piece_length,
    decreases k,
{
    if k > 0 {
        lemma_full_pieces_total(info, k - 1);
        assert(info.piece_size(k - 1) == info.piece_length);
        assert((k - 1) * info.piece_length + info.piece_length == k * info.piece_length) by (nonlinear_arith);
    } else {
        assert(0 * info.piece_length == 0);
    }
}

/// Piece-sizing law: every piece but the last has `piece_length` bytes, the
/// last has between 1 and `piece_length`, and together they make `length`.
pub proof fn law_piece_sizes(info: Info)
    requires
        info.wf(),
    ensures
        pieces_total(info, info.pieces@.len() as int) == info.length,
        forall|i: int| 0 <= i < info.pieces@.len() - 1 ==> #[trigger] info.piece_size(i) == info.piece_length,
        0 < info.piece_size(info.pieces@.len() - 1) <= info.piece_length,
{
    let n = info.pieces@.len() as int;
    let pl = info.piece_length as int;
    let len = info.length as int;
    lemma_full_pieces_total(info, n - 1);
    let last = len - (n - 1) * pl;
    assert(0 < last <= pl) by (nonlinear_arith)
        requires
            (n - 1) * pl < len <= n * pl,
            last == len - (n - 1) * pl,
    ;
    if last < pl {
        vstd::arithmetic::div_mod::lemma_fundamental_div_mod_converse_mod(len, pl, n - 1, last);
        assert(info.piece_size(n - 1) == last);
    } else {
        assert(n * pl + 0 == len) by (nonlinear_arith)
            requires last == pl, last == len - (n - 1) * pl;
        vstd::arithmetic::div_mod::lemma_fundamental_div_mod_converse_mod(len, pl, n, 0);
        assert(info.piece_size(n - 1) == pl);
    }
}

/// A torrent: the tracker URL and the metadata of its single file.
#[derive(Debug)]
pub struct Torrent {
    pub announce: Vec<u8>,
    pub info: Info,
}

/// The first check, in reading order, that a metainfo dictionary fails.
pub open spec fn torrent_error(t: Term) -> Option<MetainfoError> {
    match t {
        Term::Dict(es) => {
            let announce = str_field(es, Field::Announce);
            if announce is Err {
                Some(announce->Err_0)
            } else {
                match lookup(es, key_of(Field::Info)) {
                    None => Some(MetainfoError::Missing(Field::Info)),
                    Some(it) => info_error(it),
                }
            }
        },
        _ => Some(MetainfoError::NotADict),
    }
}

/// `tor` holds what the metainfo dictionary `t` says.
pub open spec fn describes_torrent(tor: Torrent, t: Term) -> bool {
    &&& t is Dict
    &&& str_field(t->Dict_0, Field::Announce) == Ok::<Seq<u8>, MetainfoError>(tor.announce@)
    &&& lookup(t->Dict_0, key_of(Field::Info)) matches Some(it) && describes(tor.info, it)
}

impl Torrent {
    /// Reads a metainfo dictionary: `announce` and the `info` dictionary.
    pub fn from_value(value: &Value) -> (r: Result<Torrent, MetainfoError>)
        ensures
            match r {
                Ok(tor) => torrent_error(value@) is None && tor.info.wf() && describes_torrent(tor, value@),
                Err(e) => torrent_error(value@) == Some(e),
            },
    {
        let es = match value {
            Value::Dict(es) => es,
            _ => {
                return Err(MetainfoError::NotADict);
            },
        };
        let announce = get_bytes(es, Field::Announce)?;
        let key = field_key(Field::Info);
        let info = match dict_get(es, key.as_slice()) {
            None => {
                return Err(MetainfoError::Missing(Field::Info));
            },
            Some(v) => Info::from_value(v)?,
        };
        Ok(Torrent { announce: vstd::slice::slice_to_vec(announce.as_slice()), info })
    }

    /// The hash of each piece, in order.
    pub fn piece_hashes(&self) -> (r: &Vec<[u8; 20]>)
        ensures
            r@ == self.info.pieces@,
    {
        &self.info.pieces
    }
}

/// What the tracker client needs of a torrent source, be it a metainfo file
/// or a magnet link.
pub trait TorrentInfo {
    spec fn announce_view(&self) -> Seq<u8>;

    spec fn info_hash_view(&self) -> Seq<u8>;

    spec fn length_view(&self) -> u32;

    /// The tracker URL.
    fn announce(&self) -> (r: Vec<u8>)
        ensures
            r@ == self.announce_view(),
    ;

    /// The 20-byte identity of the torrent.
    fn info_hash(&self) -> (r: [u8; 20])
        ensures
            r@ == self.info_hash_view(),
    ;

    /// The number of bytes left to download.
    fn length(&self) -> (r: u32)
        ensures
            r == self.length_view(),
    ;
}

impl TorrentInfo for Torrent {
    open spec fn announce_view(&self) -> Seq<u8> {
        self.announce@
    }

    open spec fn info_hash_view(&self) -> Seq<u8> {
        sha1_of(encode_term(info_term(self.info)))
    }

    open spec fn length_view(&self) -> u32 {
        self.info.length
    }

    fn announce(&self) -> (r: Vec<u8>) {
        vstd::slice::slice_to_vec(self.announce.as_slice())
    }

    fn info_hash(&self) -> (r: [u8; 20]) {
        self.info.hash()
    }

    fn length(&self) -> (r: u32) {
        self.info.length
    }
}

proof fn lemma_bytes_lt_asym(a: Seq<u8>, b: Seq<u8>)
    requires
        bytes_lt(a, b),
    ensures
        !bytes_lt(b, a),
        a != b,
    decreases a.len(),
{
    if a.len() > 0 && b.len() > 0 && a[0] == b[0] {
        lemma_bytes_lt_asym(a.drop_first(), b.drop_first());
    }
}

/// Where `lookup` finds a key, an entry with that key stands.
proof fn lemma_lookup_found(es: Seq<(Seq<u8>, Term)>, k: Seq<u8>) -> (j: int)
    requires
        lookup(es, k) is Some,
    ensures
        0 <= j < es.len(),
        es[j].0 == k,
        lookup(es, k) == Some(es[j].1),
    decreases es.len(),
{
    if es[0].0 == k {
        0
    } else {
        let i = lemma_lookup_found(es.drop_first(), k);
        assert(es[i + 1] == es.drop_first()[i]);
        i + 1
    }
}

/// Info-hash stability: when a well-formed `info` dictionary holds exactly
/// the four fields that the model keeps, the dictionary rebuilt from the
/// model is that same dictionary, so the canonical re-encoding, and with it
/// the info hash, equals the encoding of the dictionary that was read.
pub proof fn law_info_reencoding(info: Info, t: Term)
    requires
        t.wf(),
        describes(info, t),
        t->Dict_0.len() == 4,
    ensures
        info_term(info) == t,
        encode_term(info_term(info)) == encode_term(t),
        sha1_of(encode_term(info_term(info))) == sha1_of(encode_term(t)),
{
    let es = t->Dict_0;
    let want = info_term(info)->Dict_0;
    let a = lemma_lookup_found(es, key_of(Field::Length));
    let b = lemma_lookup_found(es, key_of(Field::Name));
    let c = lemma_lookup_found(es, key_of(Field::PieceLength));
    let d = lemma_lookup_found(es, key_of(Field::Pieces));
    reveal_with_fuel(bytes_lt, 8);
    assert(bytes_lt(want[0].0, want[1].0));
    assert(bytes_lt(want[1].0, want[2].0));
    assert(bytes_lt(want[2].0, want[3].0));
    crate::value::lemma_bytes_lt_trans(want[0].0, want[1].0, want[2].0);
    crate::value::lemma_bytes_lt_trans(want[1].0, want[2].0, want[3].0);
    crate::value::lemma_bytes_lt_trans(want[0].0, want[2].0, want[3].0);
    // Distinct keys, and ascending keys stand at ascending indices.
    assert forall|x: int, y: int| 0 <= x < 4 && 0 <= y < 4 && x < y implies #[trigger] bytes_lt(es[x].0, es[y].0) by {
        law_dict_keys_ascending(es, x, y);
    }
    assert(a < b) by {
        if b <= a {
            if b < a {
                assert(bytes_lt(es[b].0, es[a].0));
            }
            lemma_bytes_lt_asym(want[0].0, want[1].0);
        }
    }
    assert(b < c) by {
        if c <= b {
            if c < b {
                assert(bytes_lt(es[c].0, es[b].0));
            }
            lemma_bytes_lt_asym(want[1].0, want[2].0);
        }
    }
    assert(c < d) by {
        if d <= c {
            if d < c {
                assert(bytes_lt(es[d].0, es[c].0));
            }
            lemma_bytes_lt_asym(want[2].0, want[3].0);
        }
    }
    assert(es =~= want);
}

/// The canonical `info` dictionary rebuilt from the four fields that `t` holds.
pub open spec fn rebuilt_info(t: Term) -> Term {
    let es = t->Dict_0;
    Term::Dict(
        seq![
            (key_of(Field::Length), Term::Int(int_field(es, Field::Length)->Ok_0)),
            (key_of(Field::Name), Term::Str(str_field(es, Field::Name)->Ok_0)),
            (key_of(Field::PieceLength), Term::Int(int_field(es, Field::PieceLength)->Ok_0)),
            (key_of(Field::Pieces), Term::Str(str_field(es, Field::Pieces)->Ok_0)),
        ],
    )
}

/// The model read from a dictionary rebuilds exactly `rebuilt_info` of it.
pub proof fn lemma_rebuilt_info(info: Info, t: Term)
    requires
        describes(info, t),
    ensures
        info_term(info) == rebuilt_info(t),
{
    assert(info_term(info)->Dict_0 =~= rebuilt_info(t)->Dict_0);
}

} // verus!
