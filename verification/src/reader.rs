//! The reader of one connection: what it does with each attempt to read a
//! frame.
//!
//! The reader does no reading itself. It is told what came of an attempt
//! and answers with its next state and with what to do.

use vstd::prelude::*;
use vstd::utf8::*;
use crate::frame::{decode, decoded, fits, lemma_text_len_bounds, payload, Frame};
use crate::POLL_INTERVAL_MS;

verus! {

/// Where the reader of a connection stands.
#[derive(Clone, Copy, Debug, PartialEq, Eq, Structural)]
pub enum ReaderState {
    /// Waiting for the next full frame.
    AwaitingFrame,
    /// Stopped for good; the connection is read no more.
    Terminated,
}

/// What came of one attempt to read a full frame.
#[derive(Clone, Copy, Debug)]
pub enum ReadOutcome {
    /// A full frame was read.
    Frame(Frame),
    /// Nothing was there to read yet.
    WouldBlock,
    /// The read failed in any other way: an error, a closed connection, or
    /// a stream that ended inside a frame.
    Failed,
}

/// What the reader's task does next.
#[derive(Debug)]
pub enum ReaderAction {
    /// Append this text to the shared queue, then read again.
    Publish(String),
    /// Pause for this many milliseconds, then read again.
    Backoff { millis: u64 },
    /// End the task.
    Stop,
}

/// A reader's action as a plain value.
pub enum ActionView {
    Publish(Seq<char>),
    Backoff { millis: u64 },
    Stop,
}

impl View for ReaderAction {
    type V = ActionView;

    open spec fn view(&self) -> ActionView {
        match self {
            ReaderAction::Publish(text) => ActionView::Publish(text@),
            ReaderAction::Backoff { millis } => ActionView::Backoff { millis: *millis },
            ReaderAction::Stop => ActionView::Stop,
        }
    }
}

/// The reader's protocol. While it waits for a frame: a frame that decodes
/// is published; one that does not ends the reader, and so does a failed
/// read; with nothing to read it pauses for the poll interval. Once ended
/// it stays ended.
pub open spec fn transition(state: ReaderState, outcome: ReadOutcome) -> (ReaderState, ActionView) {
    match (state, outcome) {
        (ReaderState::AwaitingFrame, ReadOutcome::Frame(frame)) => match decoded(frame@) {
            Ok(text) => (ReaderState::AwaitingFrame, ActionView::Publish(text)),
            Err(_) => (ReaderState::Terminated, ActionView::Stop),
        },
        (ReaderState::AwaitingFrame, ReadOutcome::WouldBlock) => (
            ReaderState::AwaitingFrame,
            ActionView::Backoff { millis: POLL_INTERVAL_MS },
        ),
        (ReaderState::AwaitingFrame, ReadOutcome::Failed) => (
            ReaderState::Terminated,
            ActionView::Stop,
        ),
        (ReaderState::Terminated, _) => (ReaderState::Terminated, ActionView::Stop),
    }
}

/// One step of the reader: from its state and the outcome of a read to its
/// next state and what to do.
pub fn step(state: ReaderState, outcome: ReadOutcome) -> (next: (ReaderState, ReaderAction))
    ensures
        (next.0, next.1@) == transition(state, outcome),
{
    match state {
        ReaderState::Terminated => (ReaderState::Terminated, ReaderAction::Stop),
        ReaderState::AwaitingFrame => match outcome {
            ReadOutcome::Frame(frame) => match decode(&frame) {
                Ok(text) => (ReaderState::AwaitingFrame, ReaderAction::Publish(text)),
                Err(_) => (ReaderState::Terminated, ReaderAction::Stop),
            },
            ReadOutcome::WouldBlock => (
                ReaderState::AwaitingFrame,
                ReaderAction::Backoff { millis: POLL_INTERVAL_MS },
            ),
            ReadOutcome::Failed => (ReaderState::Terminated, ReaderAction::Stop),
        },
    }
}

/// A text is published only for a frame that was read while the reader was
/// waiting and whose payload is well-formed UTF-8. The text is what the
/// payload decodes to, it fits a frame, and its encoding holds no zero byte.
pub proof fn lemma_published_text(state: ReaderState, outcome: ReadOutcome, text: Seq<char>)
    requires
        transition(state, outcome).1 == ActionView::Publish(text),
    ensures
        state == ReaderState::AwaitingFrame,
        transition(state, outcome).0 == ReaderState::AwaitingFrame,
        outcome matches ReadOutcome::Frame(frame) && valid_utf8(payload(frame@)) && text
            == decode_utf8(payload(frame@)),
        fits(text),
        !encode_utf8(text).contains(0u8),
{
    let frame = outcome->Frame_0;
    lemma_text_len_bounds(frame@);
    decode_utf8_encode_utf8(payload(frame@));
}

/// A frame whose payload is not UTF-8 ends the reader, and nothing is
/// published for it.
pub proof fn lemma_malformed_frame_ends_reader(state: ReaderState, frame: Frame)
    requires
        !valid_utf8(payload(frame@)),
    ensures
        transition(state, ReadOutcome::Frame(frame)) == (ReaderState::Terminated, ActionView::Stop),
{
}

} // verus!
