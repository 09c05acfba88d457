//! The registry of live connections, in the order they were accepted.

use vstd::prelude::*;

verus! {

/// What stands for one accepted connection: the number it was registered under.
pub type ConnId = u64;

/// What came of one attempt to accept a connection.
#[derive(Clone, Copy, Debug, PartialEq, Eq, Structural)]
pub enum AcceptOutcome {
    /// A client connected.
    Connected,
    /// No connection was pending.
    NonePending,
    /// The attempt failed for another reason.
    Failed,
}

/// What to do once an accept attempt has been acted on.
#[derive(Clone, Copy, Debug, PartialEq, Eq, Structural)]
pub enum AcceptAction {
    /// The client is registered under this number: keep its write half
    /// under the number and start a reader on its read half.
    StartReader(ConnId),
    /// The client cannot be registered: close its connection.
    TurnAway,
    /// No client connected: go on with the cycle.
    Proceed,
}

/// The live connections, oldest first. No connection is listed twice, and
/// every number listed has been issued.
pub struct Registry {
    ids: Vec<ConnId>,
    next: ConnId,
}

impl Registry {
    /// The live connections, oldest first.
    pub closed spec fn view(&self) -> Seq<ConnId> {
        self.ids@
    }

    /// How many connections have been registered so far; the next one
    /// gets this number.
    pub closed spec fn issued(&self) -> nat {
        self.next as nat
    }

    /// What holds of every registry: no connection is listed twice, and
    /// every number listed has been given out.
    #[verifier::type_invariant]
    pub open spec fn inv(self) -> bool {
        &&& self@.no_duplicates()
        &&& forall|i: int| 0 <= i < self@.len() ==> #[trigger] self@[i] < self.issued()
        &&& self.issued() <= u64::MAX
    }

    /// The registry before any client has connected.
    pub fn new() -> (r: Registry)
        ensures
            r@ == Seq::<ConnId>::empty(),
            r.issued() == 0,
    {
        Registry { ids: Vec::new(), next: 0 }
    }

    /// How many connections are live.
    pub fn len(&self) -> (n: usize)
        ensures
            n == self@.len(),
    {
        self.ids.len()
    }

    /// Whether no connection is live.
    pub fn is_empty(&self) -> (b: bool)
        ensures
            b <==> self@.len() == 0,
    {
        self.ids.len() == 0
    }

    /// The connection at place `index`, oldest first.
    pub fn get(&self, index: usize) -> (r: Option<ConnId>)
        ensures
            r == (if index < self@.len() {
                Some(self@[index as int])
            } else {
                None
            }),
    {
        if index < self.ids.len() {
            Some(self.ids[index])
        } else {
            None
        }
    }

    /// Whether the connection `id` is live.
    pub fn contains(&self, id: ConnId) -> (b: bool)
        ensures
            b <==> self@.contains(id),
    {
        let mut i: usize = 0;
        while i < self.ids.len()
            invariant
                i <= self.ids@.len(),
                forall|k: int| 0 <= k < i ==> self.ids@[k] != id,
            decreases self.ids@.len() - i,
        {
            if self.ids[i] == id {
                return true;
            }
            i = i + 1;
        }
        false
    }

    /// Registers a new connection behind the others, under a number that no
    /// connection had before. Only when all numbers are used up is the
    /// connection turned away, and the registry stays as it was.
    pub fn register(&mut self) -> (r: Option<ConnId>)
        ensures
            r is Some <==> old(self).issued() < u64::MAX,
            r matches Some(id) ==> {
                &&& id == old(self).issued()
                &&& !old(self)@.contains(id)
                &&& final(self)@ == old(self)@.push(id)
                &&& final(self).issued() == old(self).issued() + 1
            },
            r is None ==> final(self)@ == old(self)@ && final(self).issued() == old(self).issued(),
    {
        proof {
            use_type_invariant(&*self);
        }
        if self.next == u64::MAX {
            return None;
        }
        let id = self.next;
        let mut ids: Vec<ConnId> = Vec::new();
        std::mem::swap(&mut ids, &mut self.ids);
        ids.push(id);
        self.next = id + 1;
        self.ids = ids;
        Some(id)
    }

    /// Acts on the outcome of one accept attempt. A client that connected is
    /// registered behind the others and gets a reader, unless all numbers
    /// are used up; every other outcome leaves the registry as it was.
    pub fn on_accept(&mut self, outcome: AcceptOutcome) -> (action: AcceptAction)
        ensures
            match action {
                AcceptAction::StartReader(id) => {
                    &&& outcome == AcceptOutcome::Connected
                    &&& old(self).issued() < u64::MAX
                    &&& id == old(self).issued()
                    &&& !old(self)@.contains(id)
                    &&& final(self)@ == old(self)@.push(id)
                    &&& final(self).issued() == old(self).issued() + 1
                },
                AcceptAction::TurnAway => {
                    &&& outcome == AcceptOutcome::Connected
                    &&& old(self).issued() == u64::MAX
                    &&& final(self)@ == old(self)@
                    &&& final(self).issued() == old(self).issued()
                },
                AcceptAction::Proceed => {
                    &&& outcome != AcceptOutcome::Connected
                    &&& final(self)@ == old(self)@
                    &&& final(self).issued() == old(self).issued()
                },
            },
    {
        match outcome {
            AcceptOutcome::Connected => match self.register() {
                Some(id) => AcceptAction::StartReader(id),
                None => AcceptAction::TurnAway,
            },
            AcceptOutcome::NonePending => AcceptAction::Proceed,
            AcceptOutcome::Failed => AcceptAction::Proceed,
        }
    }

    /// Drops the connection at place `index` and keeps the others in order.
    pub(crate) fn remove_at(&mut self, index: usize)
        requires
            index < old(self)@.len(),
        ensures
            final(self)@ == old(self)@.remove(index as int),
            final(self).issued() == old(self).issued(),
    {
        proof {
            use_type_invariant(&*self);
        }
        let mut ids: Vec<ConnId> = Vec::new();
        std::mem::swap(&mut ids, &mut self.ids);
        let ghost before = ids@;
        ids.remove(index);
        proof {
            assert(ids@ == before.remove(index as int));
            assert forall|i: int, j: int| 0 <= i < j < ids@.len() implies ids@[i] != ids@[j] by {
                let a = if i < index { i } else { i + 1 };
                let b = if j < index { j } else { j + 1 };
                assert(ids@[i] == before[a] && ids@[j] == before[b]);
            }
            assert forall|i: int| 0 <= i < ids@.len() implies #[trigger] ids@[i] < self.next by {
                let a = if i < index { i } else { i + 1 };
                assert(ids@[i] == before[a]);
            }
        }
        self.ids = ids;
    }
}

} // verus!
