//! The peer wire protocol: the 68-byte handshake, length-prefixed message
//! frames, and the plan of block requests that fetch one piece.
use vstd::prelude::*;

verus! {

/// The four bytes of `n`, most significant first.
pub open spec fn be_bytes(n: u32) -> Seq<u8> {
    seq![
        ((n >> 24u32) & 0xffu32) as u8,
        ((n >> 16u32) & 0xffu32) as u8,
        ((n >> 8u32) & 0xffu32) as u8,
        (n & 0xffu32) as u8,
    ]
}

/// The number that four bytes denote, most significant first.
pub open spec fn be_value(b0: u8, b1: u8, b2: u8, b3: u8) -> u32 {
    ((b0 as u32) << 24u32) | ((b1 as u32) << 16u32) | ((b2 as u32) << 8u32) | (b3 as u32)
}

pub proof fn lemma_be_round_trip(n: u32)
    ensures
        be_value(be_bytes(n)[0], be_bytes(n)[1], be_bytes(n)[2], be_bytes(n)[3]) == n,
{
    let b = be_bytes(n);
    assert(((((n >> 24u32) & 0xffu32) as u8) as u32) << 24u32 | ((((n >> 16u32) & 0xffu32) as u8) as u32) << 16u32
        | ((((n >> 8u32) & 0xffu32) as u8) as u32) << 8u32 | (((n & 0xffu32) as u8) as u32) == n) by (bit_vector);
}

/// Appends the four big-endian bytes of `n`.
pub fn push_be_u32(out: &mut Vec<u8>, n: u32)
    ensures
        final(out)@ == old(out)@ + be_bytes(n),
{
    out.push(((n >> 24) & 0xff) as u8);
    out.push(((n >> 16) & 0xff) as u8);
    out.push(((n >> 8) & 0xff) as u8);
    out.push((n & 0xff) as u8);
    assert(final(out)@ =~= old(out)@ + be_bytes(n));
}

/// Reads the big-endian number in `b[at..at + 4]`.
pub fn read_be_u32(b: &[u8], at: usize) -> (r: u32)
    requires
        at + 4 <= b@.len(),
    ensures
        r == be_value(b@[at as int], b@[at + 1], b@[at + 2], b@[at + 3]),
{
    ((b[at] as u32) << 24) | ((b[at + 1] as u32) << 16) | ((b[at + 2] as u32) << 8) | (b[at + 3] as u32)
}

/// The kinds of message after the handshake.
#[derive(Debug, Clone, Copy, PartialEq, Eq, Structural)]
pub enum MsgType {
    Choke,
    Unchoke,
    Interested,
    NotInterested,
    Have,
    Bitfield,
    Request,
    Piece,
    Cancel,
    Extended,
}

impl MsgType {
    /// The message ID on the wire.
    pub open spec fn spec_id(self) -> u8 {
        match self {
            MsgType::Choke => 0,
            MsgType::Unchoke => 1,
            MsgType::Interested => 2,
            MsgType::NotInterested => 3,
            MsgType::Have => 4,
            MsgType::Bitfield => 5,
            MsgType::Request => 6,
            MsgType::Piece => 7,
            MsgType::Cancel => 8,
            MsgType::Extended => 20,
        }
    }

    /// The kind that a message ID names, if any.
    pub open spec fn spec_from_id(id: u8) -> Option<MsgType> {
        if id == 0 {
            Some(MsgType::Choke)
        } else if id == 1 {
            Some(MsgType::Unchoke)
        } else if id == 2 {
            Some(MsgType::Interested)
        } else if id == 3 {
            Some(MsgType::NotInterested)
        } else if id == 4 {
            Some(MsgType::Have)
        } else if id == 5 {
            Some(MsgType::Bitfield)
        } else if id == 6 {
            Some(MsgType::Request)
        } else if id == 7 {
            Some(MsgType::Piece)
        } else if id == 8 {
            Some(MsgType::Cancel)
        } else if id == 20 {
            Some(MsgType::Extended)
        } else {
            None
        }
    }

    pub fn id(self) -> (r: u8)
        ensures
            r == self.spec_id(),
    {
        match self {
            MsgType::Choke => 0,
            MsgType::Unchoke => 1,
            MsgType::Interested => 2,
            MsgType::NotInterested => 3,
            MsgType::Have => 4,
            MsgType::Bitfield => 5,
            MsgType::Request => 6,
            MsgType::Piece => 7,
            MsgType::Cancel => 8,
            MsgType::Extended => 20,
        }
    }

    pub fn from_id(id: u8) -> (r: Option<MsgType>)
        ensures
            r == MsgType::spec_from_id(id),
    {
        match id {
            0 => Some(MsgType::Choke),
            1 => Some(MsgType::Unchoke),
            2 => Some(MsgType::Interested),
            3 => Some(MsgType::NotInterested),
            4 => Some(MsgType::Have),
            5 => Some(MsgType::Bitfield),
            6 => Some(MsgType::Request),
            7 => Some(MsgType::Piece),
            8 => Some(MsgType::Cancel),
            20 => Some(MsgType::Extended),
            _ => None,
        }
    }
}

/// Why bytes do not hold a frame.
#[derive(Debug, Clone, Copy, PartialEq, Eq)]
pub enum FrameError {
    /// Fewer bytes than the length prefix announces.
    Incomplete,
    /// A message ID that this client does not know.
    UnknownMessage(u8),
}

/// The frame of a message: `<4-byte big-endian length N><1-byte id><N-1 payload bytes>`.
pub open spec fn frame_bytes(t: MsgType, payload: Seq<u8>) -> Seq<u8> {
    be_bytes((payload.len() + 1) as u32) + seq![t.spec_id()] + payload
}

/// What stands at the start of `b`: a keep-alive (`None`), a message of a
/// kind with its payload, or why neither; with the number of bytes it takes.
pub open spec fn frame_at_start(b: Seq<u8>) -> Result<(Option<(MsgType, Seq<u8>)>, nat), FrameError> {
    if b.len() < 4 {
        Err(FrameError::Incomplete)
    } else {
        let n = be_value(b[0], b[1], b[2], b[3]) as int;
        if b.len() < 4 + n {
            Err(FrameError::Incomplete)
        } else if n == 0 {
            Ok((None, 4))
        } else {
            match MsgType::spec_from_id(b[4]) {
                None => Err(FrameError::UnknownMessage(b[4])),
                Some(t) => Ok((Some((t, b.subrange(5, 4 + n))), (4 + n) as nat)),
            }
        }
    }
}

/// A message after the handshake.
#[derive(Debug)]
pub struct PeerMsgFrame {
    pub msg_type: MsgType,
    /// the bytes after the message ID
    pub payload: Vec<u8>,
}

impl PeerMsgFrame {
    pub fn new(msg_type: MsgType, payload: Vec<u8>) -> (r: Self)
        ensures
            r.msg_type == msg_type,
            r.payload@ == payload@,
    {
        Self { msg_type, payload }
    }

    /// The frame of this message.
    pub fn to_bytes(&self) -> (r: Vec<u8>)
        requires
            self.payload@.len() + 1 <= u32::MAX,
        ensures
            r@ == frame_bytes(self.msg_type, self.payload@),
    {
        let mut buf: Vec<u8> = Vec::new();
        push_be_u32(&mut buf, (self.payload.len() + 1) as u32);
        buf.push(self.msg_type.id());
        let ghost start = buf@;
        let mut i: usize = 0;
        while i < self.payload.len()
            invariant
                i <= self.payload@.len(),
                buf@ == start + self.payload@.subrange(0, i as int),
            decreases self.payload@.len() - i,
        {
            buf.push(self.payload[i]);
            i = i + 1;
            assert(buf@ =~= start + self.payload@.subrange(0, i as int));
        }
        assert(self.payload@.subrange(0, i as int) =~= self.payload@);
        assert(buf@ =~= frame_bytes(self.msg_type, self.payload@));
        buf
    }

    /// The message whose ID and payload make up `body` (a frame without its
    /// length prefix).
    pub fn from_body(body: &[u8]) -> (r: Result<PeerMsgFrame, FrameError>)
        requires
            body@.len() > 0,
        ensures
            match r {
                Ok(f) => MsgType::spec_from_id(body@[0]) == Some(f.msg_type) && f.payload@
                    == body@.subrange(1, body@.len() as int),
                Err(e) => MsgType::spec_from_id(body@[0]) is None && e == FrameError::UnknownMessage(
                    body@[0],
                ),
            },
    {
        match MsgType::from_id(body[0]) {
            None => Err(FrameError::UnknownMessage(body[0])),
            Some(t) => {
                let payload = vstd::slice::slice_to_vec(
                    vstd::slice::slice_subrange(body, 1, body.len()),
                );
                Ok(PeerMsgFrame { msg_type: t, payload })
            },
        }
    }

    /// Reads the frame at the start of `bytes`.
    pub fn decode(bytes: &[u8]) -> (r: Result<(Option<PeerMsgFrame>, usize), FrameError>)
        ensures
            match r {
                Ok((Some(f), k)) => frame_at_start(bytes@) == Ok::<_, FrameError>(
                    (Some((f.msg_type, f.payload@)), k as nat),
                ),
                Ok((None, k)) => frame_at_start(bytes@) == Ok::<_, FrameError>((None::<(MsgType, Seq<u8>)>, k as nat)),
                Err(e) => frame_at_start(bytes@) == Err::<(Option<(MsgType, Seq<u8>)>, nat), FrameError>(e),
            },
    {
        if bytes.len() < 4 {
            return Err(FrameError::Incomplete);
        }
        let n = read_be_u32(bytes, 0) as usize;
        if bytes.len() - 4 < n {
            return Err(FrameError::Incomplete);
        }
        if n == 0 {
            return Ok((None, 4));
        }
        let body = vstd::slice::slice_subrange(bytes, 4, 4 + n);
        let f = PeerMsgFrame::from_body(body)?;
        assert(f.payload@ =~= bytes@.subrange(5, 4 + n));
        Ok((Some(f), 4 + n))
    }
}

/// Framing law: the frame of a message, followed by anything, reads back as
/// that message and takes exactly the frame's bytes.
pub proof fn law_frame_round_trip(t: MsgType, payload: Seq<u8>, rest: Seq<u8>)
    requires
        payload.len() + 1 <= u32::MAX,
    ensures
        frame_at_start(frame_bytes(t, payload) + rest) == Ok::<_, FrameError>(
            (Some((t, payload)), (5 + payload.len()) as nat),
        ),
{
    let b = frame_bytes(t, payload) + rest;
    let n = (payload.len() + 1) as u32;
    lemma_be_round_trip(n);
    assert(b[0] == be_bytes(n)[0] && b[1] == be_bytes(n)[1] && b[2] == be_bytes(n)[2] && b[3] == be_bytes(n)[3]);
    assert(b[4] == t.spec_id());
    assert(MsgType::spec_from_id(t.spec_id()) == Some(t));
    assert(b.subrange(5, 4 + n) =~= payload);
}

/// "BitTorrent protocol".
pub open spec fn protocol_string() -> Seq<u8> {
    seq![66u8, 105, 116, 84, 111, 114, 114, 101, 110, 116, 32, 112, 114, 111, 116, 111, 99, 111, 108]
}

/// The reserved bytes that this client sends: bit 0x10 of the sixth byte
/// advertises the extension protocol.
pub open spec fn our_reserved_bytes() -> Seq<u8> {
    seq![0u8, 0, 0, 0, 0, 0x10, 0, 0]
}

/// Why a handshake reply is refused.
#[derive(Debug, Clone, Copy, PartialEq, Eq)]
pub enum HandshakeError {
    /// The reply is not 68 bytes long.
    WrongLength,
    /// The reply does not start with 19 and "BitTorrent protocol".
    WrongProtocol,
    /// The reply names another torrent.
    InfoHashMismatch,
}

/// The 68-byte handshake: `<19><"BitTorrent protocol"><8 reserved><info hash><peer id>`.
#[derive(Debug)]
pub struct HandshakeMsg {
    /// length of the protocol string, 19
    pub len: u8,
    /// the protocol string
    pub string: [u8; 19],
    /// eight reserved bytes, flags of optional protocol extensions
    pub reserved_bytes: [u8; 8],
    /// the SHA-1 info hash of the torrent
    pub info_hash: [u8; 20],
    /// the sender's peer id
    pub peer_id: [u8; 20],
}

pub(crate) fn copy_into<const N: usize>(dst: &mut [u8; N], src: &[u8], at: usize)
    requires
        at + N <= src@.len(),
    ensures
        final(dst)@ == src@.subrange(at as int, at + N),
{
    let _len = src.len();
    let mut j: usize = 0;
    while j < N
        invariant
            j <= N,
            at + N <= src@.len(),
            src@.len() <= usize::MAX,
            dst@.len() == N,
            forall|i: int| 0 <= i < j ==> dst@[i] == src@[at + i],
        decreases N - j,
    {
        dst[j] = src[at + j];
        j = j + 1;
    }
    assert(dst@ =~= src@.subrange(at as int, at + N));
}

fn push_all(out: &mut Vec<u8>, src: &[u8])
    ensures
        final(out)@ == old(out)@ + src@,
{
    let ghost start = out@;
    let mut i: usize = 0;
    while i < src.len()
        invariant
            i <= src@.len(),
            out@ == start + src@.subrange(0, i as int),
        decreases src@.len() - i,
    {
        out.push(src[i]);
        i = i + 1;
        assert(out@ =~= start + src@.subrange(0, i as int));
    }
    assert(src@.subrange(0, i as int) =~= src@);
}

impl HandshakeMsg {
    /// The handshake that this client sends, with the extension bit set.
    pub fn new(info_hash: [u8; 20], peer_id: [u8; 20]) -> (r: Self)
        ensures
            r.len == 19,
            r.string@ == protocol_string(),
            r.reserved_bytes@ == our_reserved_bytes(),
            r.info_hash == info_hash,
            r.peer_id == peer_id,
    {
        let pstr: Vec<u8> = vec![66u8, 105, 116, 84, 111, 114, 114, 101, 110, 116, 32, 112, 114, 111, 116, 111, 99, 111, 108];
        let mut string: [u8; 19] = [0u8; 19];
        copy_into(&mut string, pstr.as_slice(), 0);
        let mut reserved_bytes: [u8; 8] = [0u8; 8];
        reserved_bytes[5] = 0x10;
        assert(pstr@.subrange(0, 19) =~= protocol_string());
        assert(reserved_bytes@ =~= our_reserved_bytes());
        Self { len: 19, string, reserved_bytes, info_hash, peer_id }
    }

    /// The bytes on the wire.
    pub open spec fn bytes_view(&self) -> Seq<u8> {
        seq![self.len] + self.string@ + self.reserved_bytes@ + self.info_hash@ + self.peer_id@
    }

    /// The 68 bytes on the wire.
    pub fn to_bytes(&self) -> (r: Vec<u8>)
        ensures
            r@ == self.bytes_view(),
            r@.len() == 68,
    {
        let mut out: Vec<u8> = Vec::new();
        out.push(self.len);
        push_all(&mut out, self.string.as_slice());
        push_all(&mut out, self.reserved_bytes.as_slice());
        push_all(&mut out, self.info_hash.as_slice());
        push_all(&mut out, self.peer_id.as_slice());
        assert(out@ =~= self.bytes_view());
        out
    }

    /// Reads the fields of a 68-byte handshake.
    pub fn from_bytes(b: &[u8]) -> (r: Result<HandshakeMsg, HandshakeError>)
        ensures
            match r {
                Ok(h) => b@.len() == 68 && h.bytes_view() == b@,
                Err(e) => b@.len() != 68 && e == HandshakeError::WrongLength,
            },
    {
        if b.len() != 68 {
            return Err(HandshakeError::WrongLength);
        }
        let mut string: [u8; 19] = [0u8; 19];
        copy_into(&mut string, b, 1);
        let mut reserved_bytes: [u8; 8] = [0u8; 8];
        copy_into(&mut reserved_bytes, b, 20);
        let mut info_hash: [u8; 20] = [0u8; 20];
        copy_into(&mut info_hash, b, 28);
        let mut peer_id: [u8; 20] = [0u8; 20];
        copy_into(&mut peer_id, b, 48);
        let h = HandshakeMsg { len: b[0], string, reserved_bytes, info_hash, peer_id };
        assert(h.bytes_view() =~= b@);
        Ok(h)
    }

    /// The sender advertises the extension protocol.
    pub fn supports_extensions(&self) -> (r: bool)
        ensures
            r == (self.reserved_bytes@[5] & 0x10u8 != 0),
    {
        self.reserved_bytes[5] & 0x10 != 0
    }

    /// Checks a peer's reply to a handshake that named `info_hash`.
    pub fn check_reply(&self, info_hash: &[u8; 20]) -> (r: Result<(), HandshakeError>)
        ensures
            match r {
                Ok(()) => self.len == 19 && self.string@ == protocol_string() && self.info_hash@ == info_hash@,
                Err(HandshakeError::WrongProtocol) => !(self.len == 19 && self.string@ == protocol_string()),
                Err(HandshakeError::InfoHashMismatch) => self.len == 19 && self.string@ == protocol_string()
                    && self.info_hash@ != info_hash@,
                Err(HandshakeError::WrongLength) => false,
            },
    {
        let pstr: Vec<u8> = vec![66u8, 105, 116, 84, 111, 114, 114, 101, 110, 116, 32, 112, 114, 111, 116, 111, 99, 111, 108];
        assert(pstr@ =~= protocol_string());
        if self.len != 19 || !crate::value::bytes_equal(self.string.as_slice(), pstr.as_slice()) {
            return Err(HandshakeError::WrongProtocol);
        }
        if !crate::value::bytes_equal(self.info_hash.as_slice(), info_hash.as_slice()) {
            return Err(HandshakeError::InfoHashMismatch);
        }
        Ok(())
    }
}

} // verus!
