//! What one end of a link does, one step after the other.
//!
//! Everything that happens to an end is one of the steps here, and a poll is a
//! walk of such steps.

use crate::crc::Crc;
use crate::endpoint::{Endpoint, Replies};
use crate::frame::MAX_FRAME;
use crate::lower::LowerEvent;
use crate::metrics::RecvMetrics;
use crate::time::Instant;
use core::task::Poll;
use vstd::prelude::*;

verus! {

/// Something that one end does.
pub enum Step {
    /// The lower layer gives bytes.
    Given { bytes: Seq<u8> },
    /// The first frame of the inbox is handled.
    Handled { now: Instant },
    /// The inbox is dropped, as it starts with a frame that is too long.
    Dropped,
    /// What is due is done.
    Ticked { clock: Seq<Instant> },
    /// The lower layer takes `n` bytes of the first frame in line.
    Wrote { n: nat },
    /// The reader gets bytes, `room` at most.
    Handed { room: nat },
    /// The writer hands over bytes.
    Accepted { data: Seq<u8> },
    /// A payload that is not full is queued.
    PushedOut,
}

impl Endpoint {
    /// What a step leaves.
    pub open spec fn stepped<C: Crc>(self, crc: C, step: Step) -> Endpoint {
        match step {
            Step::Given { bytes } => Endpoint { inbox: self.inbox + bytes, ..self },
            Step::Handled { now } => self.without_first().on_message(
                crc,
                self.first_message(crc),
                now,
            ),
            Step::Dropped => Endpoint {
                recv: RecvMetrics {
                    framing: crate::metrics::counted(self.recv.framing),
                    ..self.recv
                },
                inbox: Seq::empty(),
                ..self
            },
            Step::Ticked { clock } => self.ticked(crc, clock),
            Step::Wrote { n } => self.wrote(n),
            Step::Handed { room } => self.after_handing(room),
            Step::Accepted { data } => self.accepting(data),
            Step::PushedOut => self.pushing_out(),
        }
    }

    /// The step can be made: bytes are given only where they fit, a frame is handled
    /// only where it is whole and there is room for a reply, and no more is written
    /// than there is.
    pub open spec fn can(self, step: Step) -> bool {
        match step {
            Step::Given { bytes } => self.inbox.len() + bytes.len() <= MAX_FRAME,
            Step::Handled { .. } => !self.wire_full() && !self.oversized() && self.frame_ready(),
            Step::Dropped => self.oversized(),
            Step::Wrote { n } => self.wire.len() > 0 && n <= self.wire.first().len(),
            _ => true,
        }
    }

    /// What steps leave, one after the other.
    pub open spec fn walked<C: Crc>(self, crc: C, steps: Seq<Step>) -> Endpoint
        decreases steps.len(),
    {
        if steps.len() == 0 {
            self
        } else {
            self.walked(crc, steps.drop_last()).stepped(crc, steps.last())
        }
    }

    /// Each step can be made when its turn comes.
    pub open spec fn can_walk<C: Crc>(self, crc: C, steps: Seq<Step>) -> bool
        decreases steps.len(),
    {
        steps.len() > 0 ==> self.can_walk(crc, steps.drop_last()) && self.walked(
            crc,
            steps.drop_last(),
        ).can(steps.last())
    }
}

/// What went in and out of one end, in order.
#[verifier::ext_equal]
pub struct Tally {
    /// Bytes that the lower layer gave.
    pub given: Seq<u8>,
    /// Bytes that the lower layer took.
    pub taken: Seq<u8>,
    /// Bytes that the writer got rid of.
    pub accepted: Seq<u8>,
    /// Bytes that the reader got.
    pub handed: Seq<u8>,
    /// Payloads that were queued to be sent.
    pub entered: Seq<Seq<u8>>,
    /// Payloads that were sent for the first time.
    pub sent: Seq<Seq<u8>>,
    /// Payloads that were received.
    pub got: Seq<Seq<u8>>,
    /// Frames that were queued for the lower layer.
    pub queued: Seq<Seq<u8>>,
}

impl Tally {
    pub open spec fn none() -> Tally {
        Tally {
            given: Seq::empty(),
            taken: Seq::empty(),
            accepted: Seq::empty(),
            handed: Seq::empty(),
            entered: Seq::empty(),
            sent: Seq::empty(),
            got: Seq::empty(),
            queued: Seq::empty(),
        }
    }

    /// This, and after it `more`.
    pub open spec fn and(self, more: Tally) -> Tally {
        Tally {
            given: self.given + more.given,
            taken: self.taken + more.taken,
            accepted: self.accepted + more.accepted,
            handed: self.handed + more.handed,
            entered: self.entered + more.entered,
            sent: self.sent + more.sent,
            got: self.got + more.got,
            queued: self.queued + more.queued,
        }
    }
}

/// What goes in and out with a step.
pub open spec fn step_tally<C: Crc>(m: Endpoint, crc: C, step: Step) -> Tally {
    let next = m.stepped(crc, step);
    match step {
        Step::Given { bytes } => Tally { given: bytes, ..Tally::none() },
        Step::Handled { .. } => Tally {
            got: next.incoming.skip(m.incoming.len() as int),
            queued: next.wire.skip(m.wire.len() as int),
            ..Tally::none()
        },
        Step::Dropped => Tally::none(),
        Step::Ticked { .. } => Tally {
            sent: if m.can_send() {
                seq![m.outgoing.first()]
            } else {
                Seq::empty()
            },
            queued: next.wire.skip(m.wire.len() as int),
            ..Tally::none()
        },
        Step::Wrote { n } => Tally { taken: m.wire.first().take(n as int), ..Tally::none() },
        Step::Handed { room } => Tally { handed: m.handed(room), ..Tally::none() },
        Step::Accepted { data } => Tally {
            accepted: data.take(m.takes(data) as int),
            entered: next.outgoing.skip(m.outgoing.len() as int),
            ..Tally::none()
        },
        Step::PushedOut => Tally {
            entered: next.outgoing.skip(m.outgoing.len() as int),
            ..Tally::none()
        },
    }
}

/// What goes in and out with steps, one after the other.
pub open spec fn tally<C: Crc>(m: Endpoint, crc: C, steps: Seq<Step>) -> Tally
    decreases steps.len(),
{
    if steps.len() == 0 {
        Tally::none()
    } else {
        tally(m, crc, steps.drop_last()).and(
            step_tally(m.walked(crc, steps.drop_last()), crc, steps.last()),
        )
    }
}

proof fn lemma_tally_and(a: Tally, b: Tally, c: Tally)
    ensures
        a.and(b).and(c) == a.and(b.and(c)),
        a.and(Tally::none()) == a,
        Tally::none().and(a) == a,
{
    assert(a.and(b).and(c) =~= a.and(b.and(c)));
    assert(a.and(Tally::none()) =~= a);
    assert(Tally::none().and(a) =~= a);
}

/// Two walks are one.
pub proof fn lemma_walks<C: Crc>(m: Endpoint, crc: C, a: Seq<Step>, b: Seq<Step>)
    ensures
        m.walked(crc, a + b) == m.walked(crc, a).walked(crc, b),
        m.can_walk(crc, a + b) == (m.can_walk(crc, a) && m.walked(crc, a).can_walk(crc, b)),
        tally(m, crc, a + b) == tally(m, crc, a).and(tally(m.walked(crc, a), crc, b)),
    decreases b.len(),
{
    let mid = m.walked(crc, a);
    if b.len() == 0 {
        assert(a + b =~= a);
        lemma_tally_and(tally(m, crc, a), Tally::none(), Tally::none());
    } else {
        let fewer = b.drop_last();
        lemma_walks(m, crc, a, fewer);
        assert((a + b).drop_last() =~= a + fewer);
        assert((a + b).last() == b.last());
        lemma_last_step(m, crc, a + b);
        lemma_last_step(mid, crc, b);
        lemma_tally_and(
            tally(m, crc, a),
            tally(mid, crc, fewer),
            step_tally(mid.walked(crc, fewer), crc, b.last()),
        );
    }
}

/// A walk with its last step set apart.
proof fn lemma_last_step<C: Crc>(m: Endpoint, crc: C, steps: Seq<Step>)
    requires
        steps.len() > 0,
    ensures
        ({
            let before = m.walked(crc, steps.drop_last());
            &&& m.walked(crc, steps) == before.stepped(crc, steps.last())
            &&& m.can_walk(crc, steps) == (m.can_walk(crc, steps.drop_last()) && before.can(
                steps.last(),
            ))
            &&& tally(m, crc, steps) == tally(m, crc, steps.drop_last()).and(
                step_tally(before, crc, steps.last()),
            )
        }),
{
}

/// A walk of a single step.
pub proof fn lemma_one_step<C: Crc>(m: Endpoint, crc: C, step: Step)
    ensures
        m.walked(crc, seq![step]) == m.stepped(crc, step),
        m.can_walk(crc, seq![step]) == m.can(step),
        tally(m, crc, seq![step]) == step_tally(m, crc, step),
{
    let steps = seq![step];
    assert(steps.drop_last() =~= Seq::<Step>::empty());
    assert(steps.last() == step);
    assert(m.can_walk(crc, steps.drop_last()));
    assert(m.walked(crc, steps.drop_last()) == m);
    assert(tally(m, crc, steps.drop_last()) == Tally::none());
    lemma_tally_and(step_tally(m, crc, step), Tally::none(), Tally::none());
}

/// A walk with its first step set apart.
pub proof fn lemma_first_step<C: Crc>(m: Endpoint, crc: C, step: Step, rest: Seq<Step>)
    ensures
        m.walked(crc, seq![step] + rest) == m.stepped(crc, step).walked(crc, rest),
        m.can_walk(crc, seq![step] + rest) == (m.can(step) && m.stepped(crc, step).can_walk(
            crc,
            rest,
        )),
        tally(m, crc, seq![step] + rest) == step_tally(m, crc, step).and(
            tally(m.stepped(crc, step), crc, rest),
        ),
{
    lemma_walks(m, crc, seq![step], rest);
    lemma_one_step(m, crc, step);
}

/// Every step keeps a link valid.
pub proof fn law_steps_keep_valid<C: Crc>(m: Endpoint, crc: C, steps: Seq<Step>)
    requires
        m.valid(),
        m.can_walk(crc, steps),
    ensures
        m.walked(crc, steps).valid(),
    decreases steps.len(),
{
    if steps.len() > 0 {
        law_steps_keep_valid(m, crc, steps.drop_last());
        lemma_step_keeps_valid(m.walked(crc, steps.drop_last()), crc, steps.last());
    }
}

pub proof fn lemma_step_keeps_valid<C: Crc>(m: Endpoint, crc: C, step: Step)
    requires
        m.valid(),
        m.can(step),
    ensures
        m.stepped(crc, step).valid(),
{
    match step {
        Step::Handled { now } => {
            crate::laws::law_messages_keep_valid(
                m.without_first(),
                crc,
                m.first_message(crc),
                now,
            );
        },
        Step::Ticked { clock } => crate::laws::law_time_keeps_valid(m, crc, clock),
        Step::Wrote { n } => crate::laws::law_writing_keeps_valid(m, n),
        Step::Handed { room } => crate::laws::law_upper_layer_keeps_valid(m, room, Seq::empty()),
        Step::Accepted { data } => crate::laws::law_upper_layer_keeps_valid(m, 0, data),
        Step::PushedOut => crate::laws::law_upper_layer_keeps_valid(m, 0, Seq::empty()),
        _ => {},
    }
}

// ---- what a poll does ----

/// The steps of receiving.
pub open spec fn receiving_steps<C: Crc, E>(
    m: Endpoint,
    crc: C,
    replies: Replies<E>,
    seen: usize,
) -> Seq<Step>
    decreases replies.io.len(), m.inbox.len(),
{
    if m.wire_full() || seen == usize::MAX {
        Seq::empty()
    } else if m.oversized() {
        seq![Step::Dropped]
    } else if m.frame_ready() {
        let reads = m.without_first().reads_clock(m.first_message(crc));
        let step = Step::Handled {
            now: if reads {
                replies.clock[0]
            } else {
                Instant::of_millis(0)
            },
        };
        let rest = if reads {
            replies.after_clock(1)
        } else {
            replies
        };
        seq![step] + receiving_steps(m.stepped(crc, step), crc, rest, (seen + 1) as usize)
    } else if replies.io.len() == 0 {
        Seq::empty()
    } else {
        match replies.io[0] {
            LowerEvent::Read { got: Poll::Ready(Ok(bytes)), .. } if bytes.len() > 0 => {
                let step = Step::Given { bytes };
                seq![step] + receiving_steps(m.stepped(crc, step), crc, replies.after_io(), seen)
            },
            _ => Seq::empty(),
        }
    }
}

/// The steps of sending.
pub open spec fn draining_steps<E>(m: Endpoint, replies: Replies<E>) -> Seq<Step>
    decreases replies.io.len(),
{
    if m.wire.len() == 0 || replies.io.len() == 0 {
        Seq::empty()
    } else {
        match replies.io[0] {
            LowerEvent::Write { offered, taken: Poll::Ready(Ok(n)) } if n > 0 => {
                seq![Step::Wrote { n: n as nat }] + if n >= offered.len() {
                    draining_steps(m.wrote(n as nat), replies.after_io())
                } else {
                    Seq::empty()
                }
            },
            _ => Seq::empty(),
        }
    }
}

/// The steps of a poll.
pub open spec fn polling_steps<C: Crc, E>(
    m: Endpoint,
    crc: C,
    room: nat,
    replies: Replies<E>,
) -> Seq<Step>
    decreases replies.io.len(),
{
    let r = m.receiving(crc, replies, 0);
    let first = receiving_steps(m, crc, replies, 0);
    let clock = r.left.clock;
    let t = r.end.ticked(crc, clock);
    let rest = r.left.after_clock(r.end.tick_reads(clock));
    let d = t.draining(rest, 0);
    let drained = first + seq![Step::Ticked { clock }] + draining_steps(t, rest);
    let pass = drained + seq![Step::Handed { room }];
    let next = d.end.after_handing(room);
    match (r.out, d.out) {
        (Some(Ok(frames_in)), Some(Ok(bytes_out))) => if d.end.handed(room).len() > 0
            || r.end.gives_up(clock) || (frames_in == 0 && bytes_out == 0 && !next.more_to_hand(
            room,
        )) || d.left.io.len() >= replies.io.len() {
            pass
        } else {
            pass + polling_steps(next, crc, room, d.left)
        },
        (Some(Ok(_)), _) => drained,
        _ => first,
    }
}

} // verus!
