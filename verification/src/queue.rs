//! The shared queue of decoded messages, in the order they arrived.

use vstd::prelude::*;
use vstd::utf8::*;
use crate::frame::{fill, fits, padded, Frame, FrameError, FRAME_SIZE};

verus! {

/// Messages waiting for the next broadcast cycle, oldest first. Every queued
/// message fits one frame: a longer one is refused when it is pushed.
pub struct MessageQueue {
    messages: Vec<String>,
}

impl MessageQueue {
    /// What holds of every queue: each message fits one frame.
    #[verifier::type_invariant]
    spec fn inv(self) -> bool {
        forall|i: int| 0 <= i < self.messages@.len() ==> fits(#[trigger] self.messages@[i]@)
    }

    /// The queued texts, oldest first.
    pub closed spec fn view(&self) -> Seq<Seq<char>> {
        self.messages@.map_values(|s: String| s@)
    }

    /// The empty queue.
    pub fn new() -> (q: MessageQueue)
        ensures
            q@ == Seq::<Seq<char>>::empty(),
    {
        let q = MessageQueue { messages: Vec::new() };
        assert(q@ =~= Seq::<Seq<char>>::empty());
        q
    }

    /// How many messages are queued.
    pub fn len(&self) -> (n: usize)
        ensures
            n == self@.len(),
    {
        self.messages.len()
    }

    /// Whether no message is queued.
    pub fn is_empty(&self) -> (b: bool)
        ensures
            b <==> self@.len() == 0,
    {
        self.messages.len() == 0
    }

    /// Appends `text` behind everything queued, unless it is too long for a
    /// frame; then the queue stays as it was.
    pub fn push(&mut self, text: String) -> (r: Result<(), FrameError>)
        ensures
            r is Ok <==> fits(text@),
            r is Ok ==> final(self)@ == old(self)@.push(text@),
            r matches Err(e) ==> e == FrameError::FrameTooLarge && final(self)@ == old(self)@,
    {
        if text.as_str().as_bytes().len() > FRAME_SIZE {
            return Err(FrameError::FrameTooLarge);
        }
        proof {
            use_type_invariant(&*self);
        }
        let mut messages: Vec<String> = Vec::new();
        std::mem::swap(&mut messages, &mut self.messages);
        messages.push(text);
        self.messages = messages;
        assert(self@ =~= old(self)@.push(text@));
        Ok(())
    }

    /// Takes every queued message out, oldest first, and leaves the queue
    /// empty.
    pub fn drain(&mut self) -> (out: Vec<String>)
        ensures
            final(self)@ == Seq::<Seq<char>>::empty(),
            out@.len() == old(self)@.len(),
            forall|i: int| 0 <= i < out@.len() ==> #[trigger] out@[i]@ == old(self)@[i],
            forall|i: int| 0 <= i < out@.len() ==> fits(#[trigger] out@[i]@),
    {
        proof {
            use_type_invariant(&*self);
        }
        let mut out: Vec<String> = Vec::new();
        std::mem::swap(&mut out, &mut self.messages);
        assert(self@ =~= Seq::<Seq<char>>::empty());
        out
    }

    /// Takes every queued message out and returns the frame of each, oldest
    /// first; the queue is left empty.
    pub fn drain_frames(&mut self) -> (out: Vec<Frame>)
        ensures
            final(self)@ == Seq::<Seq<char>>::empty(),
            out@.len() == old(self)@.len(),
            forall|i: int|
                0 <= i < out@.len() ==> #[trigger] out@[i]@ == padded(encode_utf8(old(self)@[i])),
    {
        let texts = self.drain();
        let mut out: Vec<Frame> = Vec::new();
        let mut i: usize = 0;
        while i < texts.len()
            invariant
                i <= texts@.len(),
                out@.len() == i,
                forall|k: int| 0 <= k < texts@.len() ==> fits(#[trigger] texts@[k]@),
                forall|k: int|
                    0 <= k < i ==> #[trigger] out@[k]@ == padded(encode_utf8(texts@[k]@)),
            decreases texts@.len() - i,
        {
            out.push(fill(texts[i].as_str().as_bytes()));
            i = i + 1;
        }
        out
    }
}

} // verus!
