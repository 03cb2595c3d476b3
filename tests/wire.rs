use bittorrent::download::BlockRequest;
use bittorrent::peer::{FrameError, HandshakeError, HandshakeMsg, MsgType, PeerMsgFrame};

fn sample_hash() -> [u8; 20] {
    let mut h = [0u8; 20];
    let hex = b"d69f91e6b2ae4c542468d1073a71d4ea13879a7f";
    for i in 0..20 {
        let hi = (hex[2 * i] as char).to_digit(16).unwrap() as u8;
        let lo = (hex[2 * i + 1] as char).to_digit(16).unwrap() as u8;
        h[i] = hi * 16 + lo;
    }
    h
}

#[test]
fn handshake_frame_layout() {
    let msg = HandshakeMsg::new(sample_hash(), *b"code5craf5ters5code5");
    let bytes = msg.to_bytes();
    assert_eq!(bytes.len(), 68);
    assert_eq!(&bytes[..20], b"\x13BitTorrent protocol");
    assert_eq!(&bytes[20..28], &[0, 0, 0, 0, 0, 0x10, 0, 0]);
    assert_eq!(&bytes[28..48], &sample_hash());
    assert_eq!(&bytes[48..], b"code5craf5ters5code5");
    assert!(msg.supports_extensions());
}

#[test]
fn handshake_reply_is_checked() {
    let mine = HandshakeMsg::new(sample_hash(), *b"code5craf5ters5code5");
    let theirs = HandshakeMsg::from_bytes(&HandshakeMsg::new(sample_hash(), *b"-XX0001-abcdefghijkl").to_bytes()).unwrap();
    assert_eq!(theirs.check_reply(&mine.info_hash), Ok(()));
    assert_eq!(&theirs.peer_id, b"-XX0001-abcdefghijkl");
    let other = HandshakeMsg::from_bytes(&HandshakeMsg::new([9u8; 20], [1u8; 20]).to_bytes()).unwrap();
    assert_eq!(other.check_reply(&mine.info_hash), Err(HandshakeError::InfoHashMismatch));
    let mut garbled = mine.to_bytes();
    garbled[3] = b'x';
    let garbled = HandshakeMsg::from_bytes(&garbled).unwrap();
    assert_eq!(garbled.check_reply(&mine.info_hash), Err(HandshakeError::WrongProtocol));
    assert_eq!(HandshakeMsg::from_bytes(&[0u8; 67]).unwrap_err(), HandshakeError::WrongLength);
}

#[test]
fn frame_round_trip() {
    let kinds = [
        MsgType::Choke,
        MsgType::Unchoke,
        MsgType::Interested,
        MsgType::NotInterested,
        MsgType::Have,
        MsgType::Bitfield,
        MsgType::Request,
        MsgType::Piece,
        MsgType::Cancel,
        MsgType::Extended,
    ];
    for (i, kind) in kinds.iter().enumerate() {
        let payload: Vec<u8> = (0..i as u8 * 3).collect();
        let frame = PeerMsgFrame::new(*kind, payload.clone());
        let mut bytes = frame.to_bytes();
        assert_eq!(bytes.len(), 5 + payload.len());
        bytes.extend_from_slice(b"tail");
        let (read, used) = PeerMsgFrame::decode(&bytes).unwrap();
        let read = read.unwrap();
        assert_eq!(read.msg_type, *kind);
        assert_eq!(read.payload, payload);
        assert_eq!(used, 5 + payload.len());
    }
}

#[test]
fn frame_bytes_exact() {
    let frame = PeerMsgFrame::new(MsgType::Interested, Vec::new());
    assert_eq!(frame.to_bytes(), vec![0, 0, 0, 1, 2]);
    let req = BlockRequest { index: 2, begin: 16384, length: 10143 };
    let frame = PeerMsgFrame::new(MsgType::Request, req.to_payload());
    assert_eq!(frame.to_bytes(), vec![0, 0, 0, 13, 6, 0, 0, 0, 2, 0, 0, 0x40, 0, 0, 0, 0x27, 0x9f]);
    assert_eq!(MsgType::Extended.id(), 20);
    assert_eq!(MsgType::from_id(7), Some(MsgType::Piece));
    assert_eq!(MsgType::from_id(9), None);
}

#[test]
fn keep_alive_and_bad_frames() {
    let (m, used) = PeerMsgFrame::decode(&[0, 0, 0, 0, 9]).unwrap();
    assert!(m.is_none());
    assert_eq!(used, 4);
    assert_eq!(PeerMsgFrame::decode(&[0, 0, 0]).unwrap_err(), FrameError::Incomplete);
    assert_eq!(PeerMsgFrame::decode(&[0, 0, 0, 3, 1, 2]).unwrap_err(), FrameError::Incomplete);
    assert_eq!(PeerMsgFrame::decode(&[0, 0, 0, 1, 42]).unwrap_err(), FrameError::UnknownMessage(42));
    let body = PeerMsgFrame::from_body(&[5, 0xff]).unwrap();
    assert_eq!(body.msg_type, MsgType::Bitfield);
    assert_eq!(body.payload, vec![0xff]);
}
