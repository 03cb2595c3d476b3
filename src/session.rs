//! The choke/interest state machine of one peer session. The caller reads a
//! message, hands its kind to `on_message`, and performs the action returned.
use vstd::prelude::*;

use crate::peer::MsgType;

verus! {

/// Where a session stands.
#[derive(Debug, Clone, Copy, PartialEq, Eq, Structural)]
pub enum SessionState {
    /// Right after the handshake: the peer's bitfield must come first.
    AwaitBitfield,
    /// Interested was sent; waiting for the peer to unchoke us.
    AwaitUnchoke,
    /// Unchoked: requests may be sent and pieces received.
    Ready,
}

/// What the caller does next.
#[derive(Debug, Clone, Copy, PartialEq, Eq, Structural)]
pub enum SessionAction {
    /// Send an Interested message.
    SendInterested,
    /// Nothing to do: read the next message.
    Wait,
    /// The session is unchoked: start requesting blocks.
    StartRequests,
    /// Hand the payload of this Piece message to the piece download.
    DeliverBlock,
}

/// Why a session is abandoned.
#[derive(Debug, Clone, Copy, PartialEq, Eq, Structural)]
pub enum SessionError {
    /// The first message after the handshake was not a bitfield.
    ExpectedBitfield(MsgType),
    /// A message that makes no sense in this state.
    Unexpected(MsgType),
    /// The peer choked us while we were downloading.
    Choked,
}

/// The transition on a message of kind `msg` in state `state`.
pub open spec fn transition(state: SessionState, msg: MsgType) -> Result<(SessionState, SessionAction), SessionError> {
    match state {
        SessionState::AwaitBitfield => if msg == MsgType::Bitfield {
            Ok((SessionState::AwaitUnchoke, SessionAction::SendInterested))
        } else {
            Err(SessionError::ExpectedBitfield(msg))
        },
        SessionState::AwaitUnchoke => if msg == MsgType::Unchoke {
            Ok((SessionState::Ready, SessionAction::StartRequests))
        } else if msg == MsgType::Have || msg == MsgType::Extended {
            Ok((SessionState::AwaitUnchoke, SessionAction::Wait))
        } else {
            Err(SessionError::Unexpected(msg))
        },
        SessionState::Ready => if msg == MsgType::Piece {
            Ok((SessionState::Ready, SessionAction::DeliverBlock))
        } else if msg == MsgType::Choke {
            Err(SessionError::Choked)
        } else if msg == MsgType::Have || msg == MsgType::Extended || msg == MsgType::Unchoke {
            Ok((SessionState::Ready, SessionAction::Wait))
        } else {
            Err(SessionError::Unexpected(msg))
        },
    }
}

/// Decides what a message means for the session. Keep-alives carry no kind
/// and leave the state as it is; the caller skips them.
pub fn on_message(state: SessionState, msg: MsgType) -> (r: Result<(SessionState, SessionAction), SessionError>)
    ensures
        r == transition(state, msg),
{
    match state {
        SessionState::AwaitBitfield => {
            if msg == MsgType::Bitfield {
                Ok((SessionState::AwaitUnchoke, SessionAction::SendInterested))
            } else {
                Err(SessionError::ExpectedBitfield(msg))
            }
        },
        SessionState::AwaitUnchoke => {
            if msg == MsgType::Unchoke {
                Ok((SessionState::Ready, SessionAction::StartRequests))
            } else if msg == MsgType::Have || msg == MsgType::Extended {
                Ok((SessionState::AwaitUnchoke, SessionAction::Wait))
            } else {
                Err(SessionError::Unexpected(msg))
            }
        },
        SessionState::Ready => {
            if msg == MsgType::Piece {
                Ok((SessionState::Ready, SessionAction::DeliverBlock))
            } else if msg == MsgType::Choke {
                Err(SessionError::Choked)
            } else if msg == MsgType::Have || msg == MsgType::Extended || msg == MsgType::Unchoke {
                Ok((SessionState::Ready, SessionAction::Wait))
            } else {
                Err(SessionError::Unexpected(msg))
            }
        },
    }
}

} // verus!
