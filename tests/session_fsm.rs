use bittorrent::peer::MsgType;
use bittorrent::session::{on_message, SessionAction, SessionError, SessionState};

#[test]
fn bitfield_then_interested_then_unchoke() {
    let (s, a) = on_message(SessionState::AwaitBitfield, MsgType::Bitfield).unwrap();
    assert_eq!((s, a), (SessionState::AwaitUnchoke, SessionAction::SendInterested));
    let (s, a) = on_message(s, MsgType::Have).unwrap();
    assert_eq!((s, a), (SessionState::AwaitUnchoke, SessionAction::Wait));
    let (s, a) = on_message(s, MsgType::Extended).unwrap();
    assert_eq!((s, a), (SessionState::AwaitUnchoke, SessionAction::Wait));
    let (s, a) = on_message(s, MsgType::Unchoke).unwrap();
    assert_eq!((s, a), (SessionState::Ready, SessionAction::StartRequests));
    let (s, a) = on_message(s, MsgType::Piece).unwrap();
    assert_eq!((s, a), (SessionState::Ready, SessionAction::DeliverBlock));
}

#[test]
fn session_errors() {
    assert_eq!(
        on_message(SessionState::AwaitBitfield, MsgType::Unchoke),
        Err(SessionError::ExpectedBitfield(MsgType::Unchoke))
    );
    assert_eq!(
        on_message(SessionState::AwaitUnchoke, MsgType::Piece),
        Err(SessionError::Unexpected(MsgType::Piece))
    );
    assert_eq!(on_message(SessionState::Ready, MsgType::Choke), Err(SessionError::Choked));
    assert_eq!(
        on_message(SessionState::Ready, MsgType::Request),
        Err(SessionError::Unexpected(MsgType::Request))
    );
}
