//! The decision a connection's reader makes after each attempt to read a frame.
use vstd::prelude::*;

use crate::codec::{decode, decoded_text, FRAME_SIZE};

verus! {

/// What one attempt to read a whole frame from a connection produced.
pub enum ReadOutcome {
    /// The bytes that were read.
    Data(Vec<u8>),
    /// Nothing is available yet on the non-blocking socket.
    WouldBlock,
    /// The read failed: the peer closed, the connection reset, or it ended mid-frame.
    Failed,
}

/// Why a reader stops.
#[derive(Debug, Clone, Copy, PartialEq, Eq, Structural)]
pub enum CloseReason {
    /// The connection failed, or delivered fewer bytes than a frame.
    ReadFailure,
    /// A frame's payload was not well-formed UTF-8.
    InvalidEncoding,
}

/// What the reader does next.
pub enum ReaderAction {
    /// Hand the decoded message to the aggregator, then read again.
    Forward(String),
    /// Wait briefly, then read again.
    Retry,
    /// Stop reading: this connection is finished.
    Close(CloseReason),
}

/// Decides what a connection's reader does with the outcome of one read.
/// A full frame is decoded and forwarded; a short one, or a failed read,
/// ends the connection; so does a frame that does not decode.
pub fn on_read(outcome: ReadOutcome) -> (r: ReaderAction)
    ensures
        match outcome {
            ReadOutcome::WouldBlock => r is Retry,
            ReadOutcome::Failed => r == ReaderAction::Close(CloseReason::ReadFailure),
            ReadOutcome::Data(bytes) => {
                if bytes@.len() != FRAME_SIZE {
                    r == ReaderAction::Close(CloseReason::ReadFailure)
                } else {
                    match decoded_text(bytes@) {
                        Some(text) => r matches ReaderAction::Forward(s) && s@ == text,
                        None => r == ReaderAction::Close(CloseReason::InvalidEncoding),
                    }
                }
            },
        },
{
    match outcome {
        ReadOutcome::WouldBlock => ReaderAction::Retry,
        ReadOutcome::Failed => ReaderAction::Close(CloseReason::ReadFailure),
        ReadOutcome::Data(bytes) => {
            if bytes.len() != FRAME_SIZE {
                ReaderAction::Close(CloseReason::ReadFailure)
            } else {
                match decode(bytes.as_slice()) {
                    Ok(s) => ReaderAction::Forward(s),
                    Err(_) => ReaderAction::Close(CloseReason::InvalidEncoding),
                }
            }
        },
    }
}

} // verus!
