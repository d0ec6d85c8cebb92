//! When a poll stops, and what it waits for.

use crate::crc::Crc;
use crate::endpoint::{Endpoint, Replies};
use crate::lower::LowerEvent;
use core::task::Poll;
use vstd::prelude::*;

verus! {

/// The lower layer was not ready, so it wakes the task once it is.
pub open spec fn waits<E>(event: LowerEvent<E>) -> bool {
    match event {
        LowerEvent::Read { got: Poll::Pending, .. } => true,
        LowerEvent::Write { taken: Poll::Pending, .. } => true,
        _ => false,
    }
}

/// Of the calls `io`, of which `left` were not made, the last one found the lower
/// layer not ready.
pub open spec fn ended_waiting<E>(io: Seq<LowerEvent<E>>, left: Seq<LowerEvent<E>>) -> bool {
    left.len() < io.len() && waits(io[io.len() - left.len() - 1])
}

/// Receiving stops where the wire is full, or where the lower layer is not ready,
/// unless more frames came than can be counted. Without a call, it handles no more
/// frames than the inbox holds.
pub proof fn lemma_receiving_stops<C: Crc, E>(m: Endpoint, crc: C, replies: Replies<E>, seen: usize)
    requires
        m.valid(),
        crate::lower::honest(replies.io),
    ensures
        m.receiving(crc, replies, seen).out matches Some(Ok(k)) ==> {
            let run = m.receiving(crc, replies, seen);
            &&& run.left.io.len() <= replies.io.len()
            &&& run.end.wire_full() || ended_waiting(replies.io, run.left.io) || k == usize::MAX
            &&& run.left.io.len() == replies.io.len() ==> k <= seen + m.inbox.len()
        },
    decreases replies.io.len(), m.inbox.len(),
{
    if m.wire_full() || seen == usize::MAX || m.oversized() {
    } else if m.frame_ready() {
        let msg = m.first_message(crc);
        let m1 = m.without_first();
        let seen = (seen + 1) as usize;
        let now = if m1.reads_clock(msg) {
            replies.clock[0]
        } else {
            crate::time::Instant::of_millis(0)
        };
        let rest = if m1.reads_clock(msg) {
            replies.after_clock(1)
        } else {
            replies
        };
        crate::laws::law_messages_keep_valid(m1, crc, msg, now);
        lemma_receiving_stops(m1.on_message(crc, msg, now), crc, rest, seen);
    } else if replies.io.len() > 0 {
        if let LowerEvent::Read { room, got: Poll::Ready(Ok(bytes)) } = replies.io[0] {
            if room == crate::frame::MAX_FRAME - m.inbox.len() && bytes.len() > 0 {
                assert(replies.io[0].honest());
                assert forall|i: int| 0 <= i < replies.io.skip(1).len() implies (
                #[trigger] replies.io.skip(1)[i]).honest() by {
                    assert(replies.io.skip(1)[i] == replies.io[i + 1]);
                }
                lemma_receiving_stops(
                    Endpoint { inbox: m.inbox + bytes, ..m },
                    crc,
                    replies.after_io(),
                    seen,
                );
            }
        }
    }
}

/// Sending calls the lower layer as long as there is something on the wire, and if
/// it gets nothing out, the lower layer is not ready.
pub proof fn lemma_draining_stops<E>(m: Endpoint, replies: Replies<E>, sent: nat)
    requires
        m.valid(),
    ensures
        m.draining(replies, sent).out matches Some(Ok(n)) ==> {
            let left = m.draining(replies, sent).left;
            &&& n >= sent
            &&& left.io.len() <= replies.io.len()
            &&& m.wire.len() > 0 ==> left.io.len() < replies.io.len()
            &&& m.wire.len() == 0 ==> left == replies
            &&& m.wire.len() > 0 && n == sent ==> ended_waiting(replies.io, left.io)
        },
    decreases replies.io.len(),
{
    if m.wire.len() > 0 && replies.io.len() > 0 {
        if let LowerEvent::Write { offered, taken: Poll::Ready(Ok(n)) } = replies.io[0] {
            if offered == m.wire.first() {
                assert(m.wire.first() == m.wire[0]);
                crate::laws::law_writing_keeps_valid(m, n as nat);
                lemma_draining_stops(m.wrote(n as nat), replies.after_io(), sent + n as nat);
            }
        }
    }
}

proof fn lemma_pending<C: Crc, E>(
    m: Endpoint,
    crc: C,
    room: nat,
    replies: Replies<E>,
)
    requires
        m.valid(),
        crate::lower::honest(replies.io),
    ensures
        ({
            let run = m.polled(crc, room, replies);
            run.out matches Some(out) ==> (out.result is Pending ==> ended_waiting(
                replies.io,
                run.left.io,
            ) && (room > 0 ==> run.end.partial.len() == 0 && run.end.incoming.len() == 0))
        }),
    decreases replies.io.len(),
{
    let run = m.polled(crc, room, replies);
    let r = m.receiving(crc, replies, 0);
    if run.out is Some && r.out matches Some(Ok(frames_in)) {
        lemma_receiving_stops(m, crc, replies, 0);
        let parts = crate::streams::law_receiving_in_order(m, crc, replies, 0);
        let t = r.end.ticked(crc, r.left.clock);
        crate::laws::law_time_keeps_valid(r.end, crc, r.left.clock);
        let rest = r.left.after_clock(r.end.tick_reads(r.left.clock));
        let d = t.draining(rest, 0);
        lemma_draining_stops(t, rest, 0);
        if d.out matches Some(Ok(bytes_out)) {
            let next = d.end.after_handing(room);
            assert(d.left.io.len() < replies.io.len());
            if run == next.polled(crc, room, d.left) {
                assert forall|i: int| 0 <= i < rest.io.len() implies (
                #[trigger] rest.io[i]).honest() by {
                    assert(rest.io[i] == replies.io[i + replies.io.len() - rest.io.len()]);
                }
                crate::streams::law_draining_in_order(t, rest, 0);
                assert forall|i: int| 0 <= i < d.left.io.len() implies (
                #[trigger] d.left.io[i]).honest() by {
                    assert(d.left.io[i] == rest.io[i + rest.io.len() - d.left.io.len()]);
                }
                crate::laws::law_upper_layer_keeps_valid(d.end, room, Seq::empty());
                lemma_pending(next, crc, room, d.left);
            }
        }
    }
}

/// A poll that is pending waits for the lower layer: the last call that it made
/// found the lower layer not ready, which then wakes the task.
pub proof fn law_pending_waits_for_lower_layer<C: Crc, E>(
    m: Endpoint,
    crc: C,
    room: nat,
    replies: Replies<E>,
)
    requires
        m.valid(),
        crate::lower::honest(replies.io),
    ensures
        m.polled(crc, room, replies).out matches Some(out) ==> (out.result is Pending
            ==> ended_waiting(replies.io, m.polled(crc, room, replies).left.io)),
{
    lemma_pending(m, crc, room, replies);
}

/// A poll with room for bytes is pending only where there are none: it leaves
/// nothing unread.
pub proof fn law_pending_leaves_nothing_unread<C: Crc, E>(
    m: Endpoint,
    crc: C,
    room: nat,
    replies: Replies<E>,
)
    requires
        m.valid(),
        crate::lower::honest(replies.io),
        room > 0,
    ensures
        m.polled(crc, room, replies).out matches Some(out) ==> (out.result is Pending
            ==> crate::streams::unread(m.polled(crc, room, replies).end).len() == 0),
{
    lemma_pending(m, crc, room, replies);
    let end = m.polled(crc, room, replies).end;
    if end.incoming.len() == 0 {
        assert(end.incoming =~= Seq::empty());
    }
}

/// A poll is broken off only after 2^64 calls or more, and then it could go on as if
/// nothing had happened.
pub proof fn law_poll_is_not_cut_short<C: Crc, E>(
    m: Endpoint,
    crc: C,
    room: nat,
    used: Replies<E>,
    now: Endpoint,
    more: Replies<E>,
)
    requires
        m.polls_on(crc, room, used, now),
    ensures
        used.io.len() >= 0x1_0000_0000_0000_0000,
        m.polled(crc, room, used.and(more)) == now.polled(crc, room, more),
{
}

} // verus!
