//! The decisions of a per-connection reader: what to do with the outcome of
//! one attempt to read a frame.
use vstd::prelude::*;
use crate::frame::{decode_frame, frame_text};

verus! {

/// What one attempt to read a full frame from a connection gave.
pub enum ReadOutcome {
    /// A full frame arrived.
    Frame(Vec<u8>),
    /// No data was ready; not an error.
    WouldBlock,
    /// The connection failed or was closed by the peer.
    Failed,
}

/// What the reader does next.
#[derive(PartialEq, Eq, Debug)]
pub enum ReaderAction {
    /// Hand the decoded text to the broadcaster, then read again.
    Forward(String),
    /// Wait one idle interval, then read again.
    Idle,
    /// Stop reading and give the connection up.
    Close,
}

/// Decides the reader's next step. A frame that does not decode is a protocol
/// violation of that one connection: it is closed, nothing else is affected.
pub fn next_action(outcome: ReadOutcome) -> (a: ReaderAction)
    ensures
        outcome is WouldBlock ==> a is Idle,
        outcome is Failed ==> a is Close,
        outcome matches ReadOutcome::Frame(f) ==> match frame_text(f@) {
            Some(t) => a matches ReaderAction::Forward(s) && s@ == t,
            None => a is Close,
        },
{
    match outcome {
        ReadOutcome::Frame(f) => match decode_frame(f.as_slice()) {
            Ok(s) => ReaderAction::Forward(s),
            Err(_) => ReaderAction::Close,
        },
        ReadOutcome::WouldBlock => ReaderAction::Idle,
        ReadOutcome::Failed => ReaderAction::Close,
    }
}

} // verus!
