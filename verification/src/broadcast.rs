//! One broadcast cycle: every queued frame, in queue order, goes to every
//! live connection, in registry order. A connection whose write fails is
//! dropped at once and gets nothing more.
//!
//! The cycle does no writing itself. It names the next write, is told how
//! the write went, and moves on.

use vstd::prelude::*;
use crate::frame::Frame;
use crate::registry::{ConnId, Registry};

verus! {

/// One write to make: `frame` to the connection `conn`.
#[derive(Clone, Copy, Debug, PartialEq, Eq)]
pub struct Write {
    pub conn: ConnId,
    pub frame: Frame,
}

/// A cycle as a plain value.
pub struct CycleView {
    /// The connections still live, oldest first.
    pub live: Seq<ConnId>,
    /// The frames of this cycle, oldest first.
    pub frames: Seq<Frame>,
    /// The place in `frames` of the frame being sent.
    pub msg: nat,
    /// The place in `live` of the connection to write to next.
    pub pos: nat,
}

impl CycleView {
    /// The cycle before its first write.
    pub open spec fn start(conns: Seq<ConnId>, frames: Seq<Frame>) -> CycleView {
        CycleView { live: conns, frames, msg: 0, pos: 0 }
    }

    /// The write that is due, if any is.
    pub open spec fn pending(self) -> Option<Write> {
        if self.msg < self.frames.len() && self.pos < self.live.len() {
            Some(Write { conn: self.live[self.pos as int], frame: self.frames[self.msg as int] })
        } else {
            None
        }
    }

    /// The cycle once the write that was due has succeeded (`delivered`) or
    /// failed. A connection whose write failed leaves `live`; behind the
    /// last connection the next frame begins with the first.
    pub open spec fn after(self, delivered: bool) -> CycleView {
        if self.pending() is None {
            self
        } else {
            let live = if delivered {
                self.live
            } else {
                self.live.remove(self.pos as int)
            };
            let pos = if delivered {
                self.pos + 1
            } else {
                self.pos
            };
            if pos < live.len() {
                CycleView { live, frames: self.frames, msg: self.msg, pos: pos as nat }
            } else {
                CycleView { live, frames: self.frames, msg: self.msg + 1, pos: 0 }
            }
        }
    }
}

/// A broadcast cycle under way.
pub struct Cycle {
    registry: Registry,
    frames: Vec<Frame>,
    msg: usize,
    pos: usize,
}

impl Cycle {
    /// The cycle as a plain value.
    pub closed spec fn view(&self) -> CycleView {
        CycleView {
            live: self.registry@,
            frames: self.frames@,
            msg: self.msg as nat,
            pos: self.pos as nat,
        }
    }

    /// How many connections the registry of this cycle has registered.
    pub closed spec fn issued(&self) -> nat {
        self.registry.issued()
    }

    /// Begins a cycle that sends `frames` to the connections of `registry`.
    pub fn begin(registry: Registry, frames: Vec<Frame>) -> (cycle: Cycle)
        ensures
            cycle@ == CycleView::start(registry@, frames@),
            cycle.issued() == registry.issued(),
    {
        Cycle { registry, frames, msg: 0, pos: 0 }
    }

    /// The write that is due; `None` when the cycle is over.
    pub fn next_write(&self) -> (w: Option<Write>)
        ensures
            w == self@.pending(),
    {
        if self.msg < self.frames.len() {
            match self.registry.get(self.pos) {
                Some(conn) => Some(Write { conn, frame: self.frames[self.msg] }),
                None => None,
            }
        } else {
            None
        }
    }

    /// Whether every write of the cycle has been made.
    pub fn is_done(&self) -> (b: bool)
        ensures
            b <==> self@.pending() is None,
    {
        !(self.msg < self.frames.len() && self.pos < self.registry.len())
    }

    /// Takes note of how the write that was due went. When none was due,
    /// nothing changes.
    pub fn record(self, delivered: bool) -> (next: Cycle)
        ensures
            next@ == self@.after(delivered),
            next.issued() == self.issued(),
    {
        let Cycle { registry, frames, msg, pos } = self;
        if !(msg < frames.len() && pos < registry.len()) {
            return Cycle { registry, frames, msg, pos };
        }
        let mut registry = registry;
        let mut pos = pos;
        if delivered {
            pos = pos + 1;
        } else {
            registry.remove_at(pos);
        }
        if pos < registry.len() {
            Cycle { registry, frames, msg, pos }
        } else {
            Cycle { registry, frames, msg: msg + 1, pos: 0 }
        }
    }

    /// Ends the cycle and hands back the registry of the connections that
    /// are still live.
    pub fn finish(self) -> (registry: Registry)
        ensures
            registry@ == self@.live,
            registry.issued() == self.issued(),
    {
        self.registry
    }
}

} // verus!
