//! Decisions of the connection plumbing: relaying one server message through
//! the masking handler into the encoder, and the backoff of the listener.

use vstd::prelude::*;
use crate::backend::{Codec, Message, encodable, encode_message};
use crate::masking::DataMaskingHandler;
use crate::wire::CodecError;

verus! {

/// The direction of a pipe.
#[derive(Clone, Copy, Debug, PartialEq, Eq, Structural)]
pub enum Direction {
    ClientServer,
    ServerClient,
}

impl Direction {
    /// How the direction reads in logs.
    pub fn label(&self) -> (r: &'static str)
        ensures
            r@ == (match self {
                Direction::ClientServer => "Client -> Server"@,
                Direction::ServerClient => "Server -> Client"@,
            }),
    {
        match self {
            Direction::ClientServer => "Client -> Server",
            Direction::ServerClient => "Server -> Client",
        }
    }
}

/// Why relaying a server message ends the connection.
#[derive(Clone, Copy, Debug, PartialEq, Eq, Structural)]
pub enum RelayError {
    /// A `DataRow` came before any `RowDescription` of its result.
    UnexpectedDataRow,
    /// The rewritten message cannot be written.
    Encode(CodecError),
}

/// Passes one decoded server message through the masking handler and
/// appends its encoding to `dst`. A `DataRow` before a `RowDescription` is a
/// protocol violation: nothing is written and the handler is unchanged.
pub fn relay_server_message(
    handler: &mut DataMaskingHandler,
    codec: &mut Codec,
    msg: Message,
    dst: &mut Vec<u8>,
) -> (r: Result<(), RelayError>)
    ensures
        final(codec).state() == old(codec).state(),
        !old(handler).accepts_spec(msg@) ==> r == Err::<(), RelayError>(RelayError::UnexpectedDataRow)
            && final(dst)@ == old(dst)@ && *final(handler) == *old(handler),
        old(handler).accepts_spec(msg@) ==> ({
            let out = old(handler).output(msg@);
            &&& old(handler).next_state(*final(handler), msg@)
            &&& encodable(out) ==> r == Ok::<(), RelayError>(()) && final(dst)@ == old(dst)@
                + encode_message(out)
            &&& !encodable(out) ==> r == Err::<(), RelayError>(RelayError::Encode(CodecError::InvalidInput))
                && final(dst)@ == old(dst)@
        }),
{
    if !handler.accepts(&msg) {
        return Err(RelayError::UnexpectedDataRow);
    }
    let out = handler.process(msg);
    match codec.encode(out, dst) {
        Ok(()) => Ok(()),
        Err(e) => Err(RelayError::Encode(e)),
    }
}

/// Longest wait, in seconds, after which a failing accept is given up.
pub const MAX_BACKOFF: u64 = 64;

/// The wait before the next accept after one failed, when the last wait was
/// `backoff` seconds (1 before the first retry): twice as long, or `None`
/// once a wait of 64 seconds has been spent.
pub fn next_backoff(backoff: u64) -> (r: Option<u64>)
    ensures
        r == (if backoff > MAX_BACKOFF {
            None
        } else {
            Some((backoff * 2) as u64)
        }),
{
    if backoff > MAX_BACKOFF {
        None
    } else {
        Some(backoff * 2)
    }
}

} // verus!
