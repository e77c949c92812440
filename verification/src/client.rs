//! The client-side halves that need no transport.
//!
//! A client opens one connection and offers synchronous ping/get/set: it
//! encodes one command to a frame, sends it, blocks for exactly one reply
//! frame, and surfaces transport faults and server error replies as one
//! uniform failure. Opening the socket and pumping its bytes live outside
//! the library; the request frames come from `Command::to_frame`, and the
//! reply is sorted by `interpret_reply`.

use vstd::prelude::*;

use crate::connection::ConnectionError;
use crate::frame::Frame;
use crate::frame::FrameModel;

verus! {

/// A failure of a client call.
#[derive(Debug)]
pub enum ClientError {
    /// The transport failed, or the reply could not be decoded.
    ConnectionError(ConnectionError),
    /// The server answered the request with an error frame; its text is
    /// carried along.
    Rejected(Vec<u8>),
}

/// Sorts one reply frame into the uniform client result: an error frame
/// sent by the server becomes a failure carrying the server's text; any
/// other frame is the call's successful result, returned unchanged.
pub fn interpret_reply(reply: Frame) -> (r: Result<Frame, ClientError>)
    ensures
        match r {
            Ok(f) => !(reply@ is Error) && f == reply,
            Err(e) => match e {
                ClientError::Rejected(text) => reply@ matches FrameModel::Error(t) && text@
                    == t,
                ClientError::ConnectionError(c) => false,
            },
        },
{
    match reply {
        Frame::Error(text) => Err(ClientError::Rejected(text)),
        other => Ok(other),
    }
}

} // verus!
