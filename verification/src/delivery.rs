//! What a broadcast cycle delivers, whatever becomes of its writes: which
//! frames reach which connection, in what order the writes are made, which
//! connections are dropped, and that the cycle ends.

use vstd::prelude::*;
use vstd::utf8::*;
use crate::broadcast::{CycleView, Write};
use crate::frame::{decoded, fits, lemma_round_trip, padded, Frame, FrameError};
use crate::registry::ConnId;

verus! {

/// One write that was made, and how it went.
pub struct Attempt {
    /// The place in the cycle's frames of the frame that was written.
    pub msg: nat,
    /// The connection written to, and the frame.
    pub write: Write,
    /// Whether the write succeeded.
    pub delivered: bool,
}

impl CycleView {
    /// The cycle once the outcomes of its writes have been reported in turn.
    pub open spec fn after_all(self, outcomes: Seq<bool>) -> CycleView
        decreases outcomes.len(),
    {
        if outcomes.len() == 0 {
            self
        } else {
            self.after_all(outcomes.drop_last()).after(outcomes.last())
        }
    }

    /// The writes that were made while `outcomes` were reported in turn,
    /// each with its outcome. An outcome reported when no write was due
    /// stands for no write.
    pub open spec fn attempts(self, outcomes: Seq<bool>) -> Seq<Attempt>
        decreases outcomes.len(),
    {
        if outcomes.len() == 0 {
            Seq::empty()
        } else {
            let earlier = self.attempts(outcomes.drop_last());
            let before = self.after_all(outcomes.drop_last());
            match before.pending() {
                Some(write) => earlier.push(
                    Attempt { msg: before.msg, write, delivered: outcomes.last() },
                ),
                None => earlier,
            }
        }
    }
}

/// Whether an attempt put a frame on the connection `conn`.
pub open spec fn reached(conn: ConnId) -> spec_fn(Attempt) -> bool {
    |a: Attempt| a.write.conn == conn && a.delivered
}

/// The frame of an attempt.
pub open spec fn frame_sent() -> spec_fn(Attempt) -> Frame {
    |a: Attempt| a.write.frame
}

/// The frames that the connection `conn` received, in the order they were
/// written.
pub open spec fn received(attempts: Seq<Attempt>, conn: ConnId) -> Seq<Frame> {
    attempts.filter(reached(conn)).map_values(frame_sent())
}

/// Whether `x` stands before `y` in `conns`.
pub open spec fn stands_before(conns: Seq<ConnId>, x: ConnId, y: ConnId) -> bool {
    forall|i: int, j: int|
        0 <= i < conns.len() && 0 <= j < conns.len() && #[trigger] conns[i] == x
            && #[trigger] conns[j] == y ==> i < j
}

/// Whatever the outcomes of the writes, the frames that reach a connection
/// are the first frames of the cycle, in queue order: none comes twice, none
/// out of turn, and none is left out before the last one that came.
pub proof fn lemma_delivery_in_order(
    conns: Seq<ConnId>,
    frames: Seq<Frame>,
    outcomes: Seq<bool>,
    conn: ConnId,
)
    requires
        conns.no_duplicates(),
    ensures
        received(CycleView::start(conns, frames).attempts(outcomes), conn).is_prefix_of(frames),
{
    lemma_run_consistent(conns, frames, outcomes);
}

/// When a cycle is over, every connection that is still live has received
/// every frame of the cycle, each once, in queue order.
pub proof fn lemma_fanout(
    conns: Seq<ConnId>,
    frames: Seq<Frame>,
    outcomes: Seq<bool>,
    conn: ConnId,
)
    requires
        conns.no_duplicates(),
        CycleView::start(conns, frames).after_all(outcomes).pending() is None,
        CycleView::start(conns, frames).after_all(outcomes).live.contains(conn),
    ensures
        received(CycleView::start(conns, frames).attempts(outcomes), conn) == frames,
{
    lemma_run_consistent(conns, frames, outcomes);
    let end = CycleView::start(conns, frames).after_all(outcomes);
    let i = choose|i: int| 0 <= i < end.live.len() && end.live[i] == conn;
    assert(received(CycleView::start(conns, frames).attempts(outcomes), end.live[i])
        == frames.take(credit(end, i)));
    assert(frames.take(frames.len() as int) =~= frames);
}

/// One message in one cycle: when the cycle is over, every connection that
/// is still live has received one frame and no more, and the frame decodes
/// to the message.
pub proof fn lemma_single_message_fanout(
    conns: Seq<ConnId>,
    text: Seq<char>,
    frame: Frame,
    outcomes: Seq<bool>,
    conn: ConnId,
)
    requires
        conns.no_duplicates(),
        fits(text),
        !encode_utf8(text).contains(0u8),
        frame@ == padded(encode_utf8(text)),
        CycleView::start(conns, seq![frame]).after_all(outcomes).pending() is None,
        CycleView::start(conns, seq![frame]).after_all(outcomes).live.contains(conn),
    ensures
        received(CycleView::start(conns, seq![frame]).attempts(outcomes), conn) == seq![frame],
        decoded(frame@) == Ok::<Seq<char>, FrameError>(text),
{
    lemma_fanout(conns, seq![frame], outcomes, conn);
    lemma_round_trip(text);
}

/// A connection whose write failed is no longer live, and no write is made
/// to it after the one that failed.
pub proof fn lemma_failed_write_drops(
    conns: Seq<ConnId>,
    frames: Seq<Frame>,
    outcomes: Seq<bool>,
    k: int,
)
    requires
        conns.no_duplicates(),
        0 <= k < CycleView::start(conns, frames).attempts(outcomes).len(),
        !CycleView::start(conns, frames).attempts(outcomes)[k].delivered,
    ensures
        ({
            let end = CycleView::start(conns, frames).after_all(outcomes);
            let made = CycleView::start(conns, frames).attempts(outcomes);
            &&& !end.live.contains(made[k].write.conn)
            &&& forall|l: int| k < l < made.len() ==> (#[trigger] made[l]).write.conn != made[k].write.conn
        }),
{
    lemma_run_consistent(conns, frames, outcomes);
}

/// The connections that are live in a cycle were live when it began, and
/// one that is no longer live had a write that failed.
pub proof fn lemma_dropped_only_on_failure(
    conns: Seq<ConnId>,
    frames: Seq<Frame>,
    outcomes: Seq<bool>,
    conn: ConnId,
)
    requires
        conns.no_duplicates(),
    ensures
        ({
            let end = CycleView::start(conns, frames).after_all(outcomes);
            let made = CycleView::start(conns, frames).attempts(outcomes);
            &&& end.live.contains(conn) ==> conns.contains(conn)
            &&& conns.contains(conn) && !end.live.contains(conn) ==> exists|k: int|
                0 <= k < made.len() && (#[trigger] made[k]).write.conn == conn && !made[k].delivered
        }),
{
    lemma_run_consistent(conns, frames, outcomes);
}

/// Every write of a cycle sends a frame of the cycle to a connection that
/// was live when the cycle began.
pub proof fn lemma_writes_stay_within_cycle(
    conns: Seq<ConnId>,
    frames: Seq<Frame>,
    outcomes: Seq<bool>,
    k: int,
)
    requires
        conns.no_duplicates(),
        0 <= k < CycleView::start(conns, frames).attempts(outcomes).len(),
    ensures
        ({
            let made = CycleView::start(conns, frames).attempts(outcomes);
            &&& conns.contains(made[k].write.conn)
            &&& made[k].msg < frames.len()
            &&& made[k].write.frame == frames[made[k].msg as int]
        }),
{
    lemma_run_consistent(conns, frames, outcomes);
}

/// The writes of a cycle are made frame by frame, in queue order, and the
/// writes of one frame are made in registry order.
pub proof fn lemma_write_order(
    conns: Seq<ConnId>,
    frames: Seq<Frame>,
    outcomes: Seq<bool>,
    k: int,
    l: int,
)
    requires
        conns.no_duplicates(),
        0 <= k < l < CycleView::start(conns, frames).attempts(outcomes).len(),
    ensures
        ({
            let made = CycleView::start(conns, frames).attempts(outcomes);
            &&& made[k].msg <= made[l].msg
            &&& made[k].msg == made[l].msg ==> stands_before(
                conns,
                made[k].write.conn,
                made[l].write.conn,
            )
        }),
{
    lemma_run_in_order(conns, frames, outcomes);
}

/// A cycle is over when as many outcomes have been reported as it has
/// frames for each of its connections, and may be over sooner.
pub proof fn lemma_cycle_ends(conns: Seq<ConnId>, frames: Seq<Frame>, outcomes: Seq<bool>)
    requires
        outcomes.len() >= conns.len() * frames.len(),
    ensures
        CycleView::start(conns, frames).after_all(outcomes).pending() is None,
{
    lemma_run_writes_left(conns, frames, outcomes);
    let end = CycleView::start(conns, frames).after_all(outcomes);
    if end.pending() is Some {
        let rest = end.frames.len() - end.msg;
        let n = end.live.len() as int;
        assert(rest * n >= n) by (nonlinear_arith)
            requires
                rest >= 1,
                n >= 0,
        ;
    }
}

/// How many frames the connection at place `i` of `live` has received when
/// nothing has failed for it: those before the current one, and the current
/// one if its turn is over.
spec fn credit(c: CycleView, i: int) -> int {
    if i < c.pos {
        c.msg as int + 1
    } else {
        c.msg as int
    }
}

/// What holds of a cycle that began with `conns` and `frames`, and of the
/// attempts made in it so far.
spec fn consistent(
    c: CycleView,
    t: Seq<Attempt>,
    conns: Seq<ConnId>,
    frames: Seq<Frame>,
) -> bool {
    &&& c.frames == frames
    &&& c.live.no_duplicates()
    &&& c.msg <= frames.len()
    &&& c.pos > 0 ==> c.msg < frames.len() && c.pos < c.live.len()
    &&& forall|i: int| 0 <= i < c.live.len() ==> conns.contains(#[trigger] c.live[i])
    &&& forall|k: int|
        0 <= k < t.len() ==> {
            &&& conns.contains((#[trigger] t[k]).write.conn)
            &&& t[k].msg <= c.msg
            &&& t[k].msg < frames.len()
            &&& t[k].write.frame == frames[t[k].msg as int]
        }
    &&& forall|i: int|
        0 <= i < c.live.len() ==> received(t, #[trigger] c.live[i]) == frames.take(credit(c, i))
    &&& forall|conn: ConnId| #[trigger] received(t, conn).is_prefix_of(frames)
    &&& forall|k: int|
        0 <= k < t.len() && !(#[trigger] t[k]).delivered ==> !c.live.contains(t[k].write.conn)
    &&& forall|k: int, l: int|
        0 <= k < l < t.len() && !(#[trigger] t[k]).delivered ==> (#[trigger] t[l]).write.conn
            != t[k].write.conn
    &&& forall|conn: ConnId|
        conns.contains(conn) && !c.live.contains(conn) ==> exists|k: int|
            0 <= k < t.len() && (#[trigger] t[k]).write.conn == conn && !t[k].delivered
}

proof fn lemma_received_push(t: Seq<Attempt>, a: Attempt, conn: ConnId)
    ensures
        received(t.push(a), conn) == if a.write.conn == conn && a.delivered {
            received(t, conn).push(a.write.frame)
        } else {
            received(t, conn)
        },
{
    t.lemma_filter_push(a, reached(conn));
    if a.write.conn == conn && a.delivered {
        t.filter(reached(conn)).lemma_push_map_commute(frame_sent(), a);
    }
}

/// Where the connection that stands at place `i` of `live` after a write
/// stood before it: one place further back if it followed a connection that
/// was dropped.
spec fn place_before(c: CycleView, delivered: bool, i: int) -> int {
    if delivered || i < c.pos {
        i
    } else {
        i + 1
    }
}

proof fn lemma_step_consistent(
    c: CycleView,
    t: Seq<Attempt>,
    conns: Seq<ConnId>,
    frames: Seq<Frame>,
    delivered: bool,
)
    requires
        consistent(c, t, conns, frames),
        c.pending() is Some,
    ensures
        consistent(
            c.after(delivered),
            t.push(Attempt { msg: c.msg, write: c.pending()->0, delivered }),
            conns,
            frames,
        ),
{
    let a = Attempt { msg: c.msg, write: c.pending()->0, delivered };
    let c2 = c.after(delivered);
    let t2 = t.push(a);
    let target = c.live[c.pos as int];
    let frame = frames[c.msg as int];
    assert forall|conn: ConnId|
        received(t2, conn) == if conn == target && delivered {
            received(t, conn).push(frame)
        } else {
            received(t, conn)
        } by {
        lemma_received_push(t, a, conn);
    }
    assert(frames.take(c.msg as int).push(frame) =~= frames.take(c.msg as int + 1));
    assert forall|i: int| 0 <= i < c2.live.len() implies #[trigger] c2.live[i]
        == c.live[place_before(c, delivered, i)] by {}
    assert forall|i: int| 0 <= i < c2.live.len() implies received(t2, #[trigger] c2.live[i])
        == frames.take(credit(c2, i)) by {
        let j = place_before(c, delivered, i);
        assert(received(t, c.live[j]) == frames.take(credit(c, j)));
    }
    assert forall|conn: ConnId| #[trigger] received(t2, conn).is_prefix_of(frames) by {
        assert(received(t, conn).is_prefix_of(frames));
    }
    assert forall|k: int| 0 <= k < t2.len() && !(#[trigger] t2[k]).delivered implies
        !c2.live.contains(t2[k].write.conn) by {
        if k < t.len() {
            assert(!c.live.contains(t[k].write.conn));
        }
    }
    assert forall|k: int, l: int|
        0 <= k < l < t2.len() && !(#[trigger] t2[k]).delivered implies (#[trigger] t2[l]).write.conn
        != t2[k].write.conn by {
        assert(!c.live.contains(t[k].write.conn));
    }
    assert forall|conn: ConnId| conns.contains(conn) && !c2.live.contains(conn) implies
        exists|k: int|
            0 <= k < t2.len() && (#[trigger] t2[k]).write.conn == conn && !t2[k].delivered by {
        if c.live.contains(conn) {
            let j = choose|j: int| 0 <= j < c.live.len() && c.live[j] == conn;
            if delivered || j != c.pos {
                let i = if delivered || j < c.pos { j } else { j - 1 };
                assert(c2.live[i] == conn);
            } else {
                assert(t2[t.len() as int] == a);
            }
        } else {
            let k = choose|k: int|
                0 <= k < t.len() && (#[trigger] t[k]).write.conn == conn && !t[k].delivered;
            assert(t2[k] == t[k]);
        }
    }
}

proof fn lemma_run_consistent(conns: Seq<ConnId>, frames: Seq<Frame>, outcomes: Seq<bool>)
    requires
        conns.no_duplicates(),
    ensures
        consistent(
            CycleView::start(conns, frames).after_all(outcomes),
            CycleView::start(conns, frames).attempts(outcomes),
            conns,
            frames,
        ),
    decreases outcomes.len(),
{
    let start = CycleView::start(conns, frames);
    if outcomes.len() == 0 {
        let none = Seq::<Attempt>::empty();
        assert forall|conn: ConnId| received(none, conn) == Seq::<Frame>::empty() by {
            none.lemma_filter_len(reached(conn));
            assert(received(none, conn) =~= Seq::<Frame>::empty());
        }
        assert(frames.take(0) =~= Seq::<Frame>::empty());
    } else {
        let earlier = outcomes.drop_last();
        lemma_run_consistent(conns, frames, earlier);
        if start.after_all(earlier).pending() is Some {
            lemma_step_consistent(
                start.after_all(earlier),
                start.attempts(earlier),
                conns,
                frames,
                outcomes.last(),
            );
        }
    }
}

/// What holds of the order of the attempts made so far in a cycle that
/// began with `conns`.
spec fn in_order(c: CycleView, t: Seq<Attempt>, conns: Seq<ConnId>) -> bool {
    &&& forall|a: int, b: int|
        0 <= a < b < c.live.len() ==> stands_before(conns, #[trigger] c.live[a], #[trigger] c.live[b])
    &&& forall|k: int, b: int|
        0 <= k < t.len() && (#[trigger] t[k]).msg == c.msg && c.pos <= b < c.live.len()
            ==> stands_before(conns, t[k].write.conn, #[trigger] c.live[b])
    &&& forall|k: int, l: int|
        0 <= k < l < t.len() ==> (#[trigger] t[k]).msg <= (#[trigger] t[l]).msg
            && (t[k].msg == t[l].msg ==> stands_before(conns, t[k].write.conn, t[l].write.conn))
}

proof fn lemma_step_in_order(
    c: CycleView,
    t: Seq<Attempt>,
    conns: Seq<ConnId>,
    frames: Seq<Frame>,
    delivered: bool,
)
    requires
        consistent(c, t, conns, frames),
        in_order(c, t, conns),
        c.pending() is Some,
    ensures
        in_order(
            c.after(delivered),
            t.push(Attempt { msg: c.msg, write: c.pending()->0, delivered }),
            conns,
        ),
{
    let a = Attempt { msg: c.msg, write: c.pending()->0, delivered };
    let c2 = c.after(delivered);
    let t2 = t.push(a);
    let p = c.pos as int;
    assert forall|i: int| 0 <= i < c2.live.len() implies #[trigger] c2.live[i]
        == c.live[place_before(c, delivered, i)] by {}
    assert forall|x: int, y: int| 0 <= x < y < c2.live.len() implies
        stands_before(conns, #[trigger] c2.live[x], #[trigger] c2.live[y]) by {
        let x1 = place_before(c, delivered, x);
        let y1 = place_before(c, delivered, y);
        assert(stands_before(conns, c.live[x1], c.live[y1]));
    }
    assert forall|k: int, b: int|
        0 <= k < t2.len() && (#[trigger] t2[k]).msg == c2.msg && c2.pos <= b < c2.live.len() implies
        stands_before(conns, t2[k].write.conn, #[trigger] c2.live[b]) by {
        let b1 = place_before(c, delivered, b);
        if k < t.len() {
            assert(t2[k] == t[k]);
            assert(stands_before(conns, t[k].write.conn, c.live[b1]));
        } else {
            assert(stands_before(conns, c.live[p], c.live[b1]));
        }
    }
    assert forall|k: int, l: int| 0 <= k < l < t2.len() implies
        (#[trigger] t2[k]).msg <= (#[trigger] t2[l]).msg && (t2[k].msg == t2[l].msg
            ==> stands_before(conns, t2[k].write.conn, t2[l].write.conn)) by {
        assert(t2[k] == t[k]);
        if l < t.len() {
            assert(t2[l] == t[l]);
        } else if t[k].msg == c.msg {
            assert(stands_before(conns, t[k].write.conn, c.live[p]));
        }
    }
}

proof fn lemma_run_in_order(conns: Seq<ConnId>, frames: Seq<Frame>, outcomes: Seq<bool>)
    requires
        conns.no_duplicates(),
    ensures
        in_order(
            CycleView::start(conns, frames).after_all(outcomes),
            CycleView::start(conns, frames).attempts(outcomes),
            conns,
        ),
    decreases outcomes.len(),
{
    let start = CycleView::start(conns, frames);
    if outcomes.len() > 0 {
        let earlier = outcomes.drop_last();
        lemma_run_in_order(conns, frames, earlier);
        lemma_run_consistent(conns, frames, earlier);
        if start.after_all(earlier).pending() is Some {
            lemma_step_in_order(
                start.after_all(earlier),
                start.attempts(earlier),
                conns,
                frames,
                outcomes.last(),
            );
        }
    }
}

/// A bound on the writes that a cycle has yet to make.
spec fn writes_left(c: CycleView) -> int {
    if c.pending() is Some {
        (c.frames.len() - c.msg) * c.live.len() - c.pos
    } else {
        0
    }
}

proof fn lemma_writes_left_decreases(c: CycleView, delivered: bool)
    requires
        c.pending() is Some,
    ensures
        0 <= writes_left(c.after(delivered)) < writes_left(c),
{
    let rest = c.frames.len() - c.msg;
    let n = c.live.len() as int;
    let p = c.pos as int;
    assert(rest * n >= n && rest * (n - 1) >= n - 1 && (rest - 1) * (n - 1) >= 0)
        by (nonlinear_arith)
        requires
            rest >= 1,
            n >= 1,
    ;
    assert(rest * (n - 1) == rest * n - rest) by (nonlinear_arith);
    assert((rest - 1) * n == rest * n - n) by (nonlinear_arith);
    assert((rest - 1) * (n - 1) == rest * n - rest - n + 1) by (nonlinear_arith);
}

proof fn lemma_run_writes_left(conns: Seq<ConnId>, frames: Seq<Frame>, outcomes: Seq<bool>)
    ensures
        CycleView::start(conns, frames).after_all(outcomes).pending() is Some ==> writes_left(
            CycleView::start(conns, frames).after_all(outcomes),
        ) + outcomes.len() <= conns.len() * frames.len(),
    decreases outcomes.len(),
{
    let start = CycleView::start(conns, frames);
    if outcomes.len() == 0 {
        assert(frames.len() * conns.len() == conns.len() * frames.len()) by (nonlinear_arith);
    } else {
        let earlier = outcomes.drop_last();
        lemma_run_writes_left(conns, frames, earlier);
        if start.after_all(earlier).pending() is Some {
            lemma_writes_left_decreases(start.after_all(earlier), outcomes.last());
        }
    }
}

} // verus!
