//! The byte streams on either side of a link: nothing is lost, added or put out
//! of order between the upper layer, the payload rings, and the wire.

use crate::crc::Crc;
use crate::endpoint::{Endpoint, Replies};
use crate::error::ArqError;
use crate::frame::{Message, HDR_LEN, MAX_FRAME, MAX_PAYLOAD, MSG_TYPE_DAT};
use crate::lower::LowerEvent;
use crate::steps::{Step, Tally};
use crate::time::Instant;
use core::task::Poll;
use vstd::prelude::*;

verus! {

/// The bytes received that the upper layer has not read yet.
pub open spec fn unread(m: Endpoint) -> Seq<u8> {
    m.partial + m.incoming.flatten()
}

/// The bytes written by the upper layer that have not been sent yet.
pub open spec fn unsent(m: Endpoint) -> Seq<u8> {
    m.outgoing.flatten() + m.staging
}

/// The bytes that wait for the lower layer.
pub open spec fn on_wire(m: Endpoint) -> Seq<u8> {
    m.wire.flatten()
}

// ---- the upper layer ----

/// Reading takes bytes off the front of what was received.
pub proof fn law_reading_in_order(m: Endpoint, room: nat)
    ensures
        unread(m) == m.handed(room) + unread(m.after_handing(room)),
        m.handed(room).len() <= room,
{
    let n = m.handed(room).len() as int;
    assert(m.readable() =~= m.handed(room) + m.readable().skip(n));
    if room == 0 || (m.partial.len() == 0 && m.incoming.len() == 0) {
        assert(m.handed(room) =~= Seq::<u8>::empty());
        assert(unread(m) =~= m.handed(room) + unread(m));
    } else if m.partial.len() > 0 {
        assert(unread(m) =~= m.handed(room) + unread(m.after_handing(room)));
    } else {
        assert(m.incoming.flatten() == m.incoming.first() + m.incoming.drop_first().flatten());
        assert(unread(m) =~= m.handed(room) + unread(m.after_handing(room)));
    }
}

/// A message adds its payload to the end of what was received, if it is the one
/// expected and there is room, and otherwise nothing.
pub proof fn law_received_in_order<C: Crc>(m: Endpoint, crc: C, msg: Message, now: Instant)
    ensures
        unread(m.on_message(crc, msg, now)) == if msg.intact && msg.ty == MSG_TYPE_DAT && msg.id
            == crate::endpoint::next_id(m.recv_pkt_id) && m.incoming.len()
            < crate::endpoint::PAYLOAD_RING {
            unread(m) + msg.payload
        } else {
            unread(m)
        },
{
    crate::laws::law_only_expected_is_taken(m, crc, msg, now);
    m.incoming.lemma_flatten_push(msg.payload);
    assert(m.partial + (m.incoming.flatten() + msg.payload) =~= unread(m) + msg.payload);
}

/// Writing adds the bytes that are taken to the end of what is to be sent.
pub proof fn law_writing_in_order(m: Endpoint, data: Seq<u8>)
    requires
        m.valid(),
    ensures
        m.takes(data) <= data.len(),
        unsent(m.accepting(data)) == unsent(m) + data.take(m.takes(data) as int),
{
    let all = m.staged_with(data);
    let k = m.filled(data);
    let whole = all.len() / 251;
    assert(251 * whole <= all.len());
    let parts = Seq::new(k, |i: int| all.subrange(MAX_PAYLOAD * i, MAX_PAYLOAD * (i + 1)));
    lemma_parts(all, k);
    vstd::seq_lib::lemma_flatten_concat(m.outgoing, parts);
    assert(parts.flatten() + all.skip(251 * k as int) =~= all);
    assert(unsent(m.accepting(data)) =~= m.outgoing.flatten() + (parts.flatten() + all.skip(
        251 * k as int,
    )));
    assert(m.outgoing.flatten() + all =~= unsent(m) + data.take(m.takes(data) as int));
}

/// Whole payloads put back together.
proof fn lemma_parts(all: Seq<u8>, k: nat)
    requires
        251 * k <= all.len(),
    ensures
        Seq::new(k, |i: int| all.subrange(MAX_PAYLOAD * i, MAX_PAYLOAD * (i + 1))).flatten()
            == all.take(251 * k as int),
    decreases k,
{
    let parts = Seq::new(k, |i: int| all.subrange(MAX_PAYLOAD * i, MAX_PAYLOAD * (i + 1)));
    if k == 0 {
        assert(parts.flatten() =~= all.take(0));
    } else {
        let fewer = Seq::new(
            (k - 1) as nat,
            |i: int| all.subrange(MAX_PAYLOAD * i, MAX_PAYLOAD * (i + 1)),
        );
        lemma_parts(all, (k - 1) as nat);
        let last = all.subrange(MAX_PAYLOAD * (k - 1), MAX_PAYLOAD * k);
        assert(parts =~= fewer.push(last));
        fewer.lemma_flatten_push(last);
        assert(all.take(251 * k as int) =~= all.take(251 * (k - 1)) + last);
    }
}

/// Flushing moves staged bytes, but changes nothing of what is to be sent.
pub proof fn law_flushing_keeps_order(m: Endpoint)
    ensures
        unsent(m.pushing_out()) == unsent(m),
{
    m.outgoing.lemma_flatten_push(m.staging);
    assert(unsent(m.pushing_out()) =~= unsent(m));
}

/// A payload is sent from the front of what is to be sent, and time takes
/// nothing else from it.
pub proof fn law_sending_in_order<C: Crc>(m: Endpoint, crc: C, clock: Seq<Instant>)
    ensures
        m.can_send() ==> unsent(m) == m.outgoing.first() + unsent(m.ticked(crc, clock)),
        !m.can_send() ==> unsent(m.ticked(crc, clock)) == unsent(m),
{
    if m.can_send() {
        assert(m.outgoing.flatten() == m.outgoing.first() + m.outgoing.drop_first().flatten());
        assert(unsent(m) =~= m.outgoing.first() + unsent(m.ticked(crc, clock)));
    }
}

// ---- the wire ----

/// The bytes that the lower layer took in these calls.
pub open spec fn bytes_taken<E>(io: Seq<LowerEvent<E>>) -> Seq<u8>
    decreases io.len(),
{
    if io.len() == 0 {
        Seq::empty()
    } else {
        bytes_taken(io.drop_last()) + match io.last() {
            LowerEvent::Write { offered, taken: Poll::Ready(Ok(n)) } => offered.take(n as int),
            _ => Seq::empty(),
        }
    }
}

/// The bytes that the lower layer gave in these calls.
pub open spec fn bytes_given<E>(io: Seq<LowerEvent<E>>) -> Seq<u8>
    decreases io.len(),
{
    if io.len() == 0 {
        Seq::empty()
    } else {
        bytes_given(io.drop_last()) + match io.last() {
            LowerEvent::Read { got: Poll::Ready(Ok(bytes)), .. } => bytes,
            _ => Seq::empty(),
        }
    }
}

/// The calls before those in `left`.
pub open spec fn used<E>(io: Seq<LowerEvent<E>>, left: Seq<LowerEvent<E>>) -> Seq<LowerEvent<E>> {
    io.take(io.len() - left.len())
}

/// A frame that one end of a link can send.
pub open spec fn is_frame<C: Crc>(crc: C, f: Seq<u8>) -> bool {
    ||| exists|ty: u8, id: u8| f == #[trigger] crate::frame::ctl_bytes(crc, ty, id)
    ||| exists|id: u8, payload: Seq<u8>|
        payload.len() <= MAX_PAYLOAD && f == #[trigger] crate::frame::dat_bytes(crc, id, payload)
}

/// Frames that one end of a link can send.
pub open spec fn are_frames<C: Crc>(crc: C, frames: Seq<Seq<u8>>) -> bool {
    forall|i: int| 0 <= i < frames.len() ==> is_frame(crc, #[trigger] frames[i])
}

/// The lower layer takes bytes off the front of the wire.
pub proof fn law_written_in_order(m: Endpoint, n: nat)
    requires
        m.wire.len() > 0,
        n <= m.wire.first().len(),
    ensures
        on_wire(m) == m.wire.first().take(n as int) + on_wire(m.wrote(n)),
{
    let first = m.wire.first();
    let rest = m.wire.drop_first();
    assert(m.wire.flatten() == first + rest.flatten());
    if n == first.len() {
        assert(first.take(n as int) =~= first);
    } else {
        let next = m.wire.update(0, first.skip(n as int));
        assert(next.drop_first() =~= rest);
        assert(next.first() == first.skip(n as int));
        assert(on_wire(m) =~= first.take(n as int) + (first.skip(n as int) + rest.flatten()));
    }
}

pub proof fn lemma_bytes_concat<E>(a: Seq<LowerEvent<E>>, b: Seq<LowerEvent<E>>)
    ensures
        bytes_taken(a + b) == bytes_taken(a) + bytes_taken(b),
        bytes_given(a + b) == bytes_given(a) + bytes_given(b),
    decreases b.len(),
{
    if b.len() == 0 {
        assert(a + b =~= a);
        assert(bytes_taken(a) + bytes_taken(b) =~= bytes_taken(a));
        assert(bytes_given(a) + bytes_given(b) =~= bytes_given(a));
    } else {
        lemma_bytes_concat(a, b.drop_last());
        assert((a + b).drop_last() =~= a + b.drop_last());
        assert((a + b).last() == b.last());
        assert(bytes_taken(a + b) =~= bytes_taken(a) + bytes_taken(b));
        assert(bytes_given(a + b) =~= bytes_given(a) + bytes_given(b));
    }
}

/// The first of the calls, and then those after it.
pub proof fn lemma_used_first<E>(io: Seq<LowerEvent<E>>, left: Seq<LowerEvent<E>>)
    requires
        io.len() > 0,
        left.len() < io.len(),
    ensures
        used(io, left) == seq![io[0]] + used(io.skip(1), left),
        bytes_taken(used(io, left)) == bytes_taken(seq![io[0]]) + bytes_taken(
            used(io.skip(1), left),
        ),
        bytes_given(used(io, left)) == bytes_given(seq![io[0]]) + bytes_given(
            used(io.skip(1), left),
        ),
{
    assert(used(io, left) =~= seq![io[0]] + used(io.skip(1), left));
    lemma_bytes_concat(seq![io[0]], used(io.skip(1), left));
}

/// Calls used in two portions.
proof fn lemma_used_twice<E>(
    io: Seq<LowerEvent<E>>,
    mid: Seq<LowerEvent<E>>,
    left: Seq<LowerEvent<E>>,
)
    requires
        mid.len() <= io.len(),
        mid == io.skip(io.len() - mid.len()),
        left.len() <= mid.len(),
        left == mid.skip(mid.len() - left.len()),
    ensures
        left == io.skip(io.len() - left.len()),
        bytes_taken(used(io, left)) == bytes_taken(used(io, mid)) + bytes_taken(used(mid, left)),
        bytes_given(used(io, left)) == bytes_given(used(io, mid)) + bytes_given(used(mid, left)),
{
    assert(left =~= io.skip(io.len() - left.len()));
    assert(used(io, left) =~= used(io, mid) + used(mid, left));
    lemma_bytes_concat(used(io, mid), used(mid, left));
}

pub proof fn lemma_single_call<E>(event: LowerEvent<E>)
    ensures
        bytes_taken(seq![event]) == match event {
            LowerEvent::Write { offered, taken: Poll::Ready(Ok(n)) } => offered.take(n as int),
            _ => Seq::empty(),
        },
        bytes_given(seq![event]) == match event {
            LowerEvent::Read { got: Poll::Ready(Ok(bytes)), .. } => bytes,
            _ => Seq::empty(),
        },
{
    assert(seq![event].drop_last() =~= Seq::<LowerEvent<E>>::empty());
    assert(seq![event].last() == event);
    reveal_with_fuel(bytes_taken, 2);
    reveal_with_fuel(bytes_given, 2);
    assert(bytes_taken(seq![event]) =~= match event {
        LowerEvent::Write { offered, taken: Poll::Ready(Ok(n)) } => offered.take(n as int),
        _ => Seq::empty(),
    });
    assert(bytes_given(seq![event]) =~= match event {
        LowerEvent::Read { got: Poll::Ready(Ok(bytes)), .. } => bytes,
        _ => Seq::empty(),
    });
}

pub proof fn lemma_honest_rest<E>(io: Seq<LowerEvent<E>>, n: int)
    requires
        crate::lower::honest(io),
        0 <= n <= io.len(),
    ensures
        crate::lower::honest(io.skip(n)),
{
    assert forall|i: int| 0 <= i < io.skip(n).len() implies (#[trigger] io.skip(n)[i]).honest() by {
        assert(io.skip(n)[i] == io[i + n]);
    }
}

/// Sending takes bytes off the front of the wire, in order, and touches nothing
/// else: what the lower layer took is what has left the wire, and its length is what
/// sending reports.
pub proof fn law_draining_in_order<E>(m: Endpoint, replies: Replies<E>, sent: nat)
    requires
        m.valid(),
        crate::lower::honest(replies.io),
    ensures
        ({
            let run = m.draining(replies, sent);
            run.out is Some ==> {
                &&& run.left.io.len() <= replies.io.len()
                &&& run.left.io == replies.io.skip(replies.io.len() - run.left.io.len())
                &&& run.left.clock == replies.clock
                &&& run.end == (Endpoint { wire: run.end.wire, ..m })
                &&& run.end.valid()
                &&& on_wire(m) == bytes_taken(used(replies.io, run.left.io)) + on_wire(run.end)
                &&& bytes_given(used(replies.io, run.left.io)) == Seq::<u8>::empty()
                &&& run.out matches Some(Ok(n)) ==> n == sent + bytes_taken(
                    used(replies.io, run.left.io),
                ).len()
            }
        }),
    decreases replies.io.len(),
{
    let run = m.draining(replies, sent);
    if run.out is Some {
        if m.wire.len() == 0 {
            assert(replies.io.skip(0) =~= replies.io);
            assert(used(replies.io, replies.io) =~= Seq::empty());
            assert(on_wire(m) =~= Seq::<u8>::empty() + on_wire(m));
        } else {
            let event = replies.io[0];
            let rest = replies.after_io();
            lemma_honest_rest(replies.io, 1);
            lemma_single_call(event);
            lemma_used_first(replies.io, rest.io);
            assert(used(rest.io, rest.io) =~= Seq::empty());
            assert(rest.io.skip(0) =~= rest.io);
            match event {
                LowerEvent::Write { offered, taken: Poll::Ready(Ok(n)) } => {
                    if n > 0 {
                        law_written_in_order(m, n as nat);
                        crate::laws::law_writing_keeps_valid(m, n as nat);
                    }
                    if n >= offered.len() {
                        law_draining_in_order(m.wrote(n as nat), rest, sent + n as nat);
                        lemma_used_first(replies.io, run.left.io);
                        assert(run.left.io =~= replies.io.skip(
                            replies.io.len() - run.left.io.len(),
                        ));
                        assert(bytes_given(seq![event]) + bytes_given(
                            used(rest.io, run.left.io),
                        ) =~= Seq::<u8>::empty());
                        assert(on_wire(m) =~= bytes_taken(used(replies.io, run.left.io))
                            + on_wire(run.end));
                    } else {
                        assert(bytes_taken(used(replies.io, rest.io)) =~= offered.take(n as int));
                        if n == 0 {
                            assert(on_wire(m) =~= offered.take(0) + on_wire(m));
                        }
                    }
                },
                _ => {
                    assert(on_wire(m) =~= bytes_taken(used(replies.io, rest.io)) + on_wire(m));
                },
            }
            assert(bytes_given(used(replies.io, run.left.io)) =~= Seq::<u8>::empty());
        }
    }
}

/// Whatever a message makes one end send is a whole frame.
proof fn lemma_message_queues<C: Crc>(m: Endpoint, crc: C, msg: Message, now: Instant) -> (queued:
    Seq<Seq<u8>>)
    requires
        m.valid(),
    ensures
        m.on_message(crc, msg, now).wire == m.wire + queued,
        are_frames(crc, queued),
{
    let wire = m.on_message(crc, msg, now).wire;
    if wire.len() > m.wire.len() {
        let f = wire.last();
        assert(wire =~= m.wire + seq![f]);
        assert(is_frame(crc, f));
        seq![f]
    } else {
        assert(wire =~= m.wire + Seq::<Seq<u8>>::empty());
        Seq::empty()
    }
}

/// Whatever time makes one end send is a whole frame.
proof fn lemma_time_queues<C: Crc>(m: Endpoint, crc: C, clock: Seq<Instant>) -> (queued: Seq<
    Seq<u8>,
>)
    requires
        m.valid(),
    ensures
        m.ticked(crc, clock).wire == m.wire + queued,
        are_frames(crc, queued),
{
    let wire = m.ticked(crc, clock).wire;
    if wire.len() > m.wire.len() {
        let f = wire.last();
        assert(wire =~= m.wire + seq![f]);
        if m.can_send() {
            assert(m.outgoing.first() == m.outgoing[0]);
        }
        assert(is_frame(crc, f));
        seq![f]
    } else {
        assert(wire =~= m.wire + Seq::<Seq<u8>>::empty());
        Seq::empty()
    }
}

proof fn lemma_frames_concat<C: Crc>(crc: C, a: Seq<Seq<u8>>, b: Seq<Seq<u8>>)
    requires
        are_frames(crc, a),
        are_frames(crc, b),
    ensures
        are_frames(crc, a + b),
        (a + b).flatten() == a.flatten() + b.flatten(),
{
    vstd::seq_lib::lemma_flatten_concat(a, b);
    assert forall|i: int| 0 <= i < (a + b).len() implies is_frame(crc, #[trigger] (a + b)[i]) by {
        if i < a.len() {
            assert((a + b)[i] == a[i]);
        } else {
            assert((a + b)[i] == b[i - a.len()]);
        }
    }
}

/// What receiving leaves on the wire and in the inbox.
pub open spec fn received_in_order<C: Crc, E>(
    m: Endpoint,
    crc: C,
    replies: Replies<E>,
    seen: usize,
    handled: Seq<Seq<u8>>,
    queued: Seq<Seq<u8>>,
) -> bool {
    let run = m.receiving(crc, replies, seen);
    &&& run.left.io.len() <= replies.io.len()
    &&& run.left.io == replies.io.skip(replies.io.len() - run.left.io.len())
    &&& run.end.valid()
    &&& run.end.wire == m.wire + queued
    &&& are_frames(crc, queued)
    &&& bytes_taken(used(replies.io, run.left.io)) == Seq::<u8>::empty()
    &&& forall|i: int|
        0 <= i < handled.len() ==> HDR_LEN <= (#[trigger] handled[i]).len() <= MAX_FRAME
            && handled[i].len() == crate::frame::announced_len(handled[i])
    &&& !(run.out matches Some(Err(ArqError::Framing))) ==> m.inbox + bytes_given(
        used(replies.io, run.left.io),
    ) == handled.flatten() + run.end.inbox
}

/// However the lower layer cuts up the bytes that it gives, they are taken as
/// one stream: what was in the inbox and what was read since is the frames that
/// were handled, one after the other, and what is in the inbox now. All that is
/// sent meanwhile are whole frames, queued behind those already there.
#[verifier::rlimit(20)]
pub proof fn law_receiving_in_order<C: Crc, E>(
    m: Endpoint,
    crc: C,
    replies: Replies<E>,
    seen: usize,
) -> (parts: (Seq<Seq<u8>>, Seq<Seq<u8>>))
    requires
        m.valid(),
        crate::lower::honest(replies.io),
        m.receiving(crc, replies, seen).out is Some,
    ensures
        received_in_order(m, crc, replies, seen, parts.0, parts.1),
    decreases replies.io.len(), m.inbox.len(),
{
    let run = m.receiving(crc, replies, seen);
    let none = Seq::<Seq<u8>>::empty();
    if m.wire_full() || seen == usize::MAX || m.oversized() {
        assert(replies.io.skip(0) =~= replies.io);
        assert(used(replies.io, replies.io) =~= Seq::empty());
        assert(m.wire =~= m.wire + none);
        assert(m.inbox + Seq::<u8>::empty() =~= none.flatten() + m.inbox);
        (none, none)
    } else if m.frame_ready() {
        let frame = m.inbox.take(crate::frame::announced_len(m.inbox));
        let msg = m.first_message(crc);
        let m1 = m.without_first();
        let reads = m1.reads_clock(msg);
        let now = if reads {
            replies.clock[0]
        } else {
            Instant::of_millis(0)
        };
        let m2 = m1.on_message(crc, msg, now);
        let rest = if reads {
            replies.after_clock(1)
        } else {
            replies
        };
        let first = lemma_message_queues(m1, crc, msg, now);
        crate::laws::law_messages_keep_valid(m1, crc, msg, now);
        let (handled, queued) = law_receiving_in_order(m2, crc, rest, (seen + 1) as usize);
        let all_handled = seq![frame] + handled;
        let all_queued = first + queued;
        assert(run == m2.receiving(crc, rest, (seen + 1) as usize));
        assert(run.end.wire =~= m.wire + all_queued);
        lemma_frames_concat(crc, first, queued);
        assert(all_handled.drop_first() =~= handled);
        assert(all_handled.first() == frame);
        assert(m.inbox =~= frame + m1.inbox);
        let given = bytes_given(used(replies.io, run.left.io));
        assert(m.inbox + given =~= frame + (m1.inbox + given));
        assert(frame + (handled.flatten() + run.end.inbox) =~= (frame + handled.flatten())
            + run.end.inbox);
        (all_handled, all_queued)
    } else {
        let event = replies.io[0];
        let rest = replies.after_io();
        lemma_honest_rest(replies.io, 1);
        lemma_single_call(event);
        lemma_used_first(replies.io, rest.io);
        assert(used(rest.io, rest.io) =~= Seq::empty());
        assert(rest.io.skip(0) =~= rest.io);
        assert(m.wire =~= m.wire + none);
        let bytes = bytes_given(seq![event]);
        if bytes.len() > 0 {
            let next = Endpoint { inbox: m.inbox + bytes, ..m };
            let parts = law_receiving_in_order(next, crc, rest, seen);
            lemma_used_first(replies.io, run.left.io);
            assert(run.left.io =~= replies.io.skip(replies.io.len() - run.left.io.len()));
            let more = bytes_given(used(rest.io, run.left.io));
            assert(m.inbox + (bytes + more) =~= (m.inbox + bytes) + more);
            assert(bytes_taken(used(replies.io, run.left.io)) =~= Seq::<u8>::empty());
            parts
        } else {
            assert(bytes_taken(used(replies.io, rest.io)) =~= Seq::<u8>::empty());
            assert(m.inbox + bytes_given(used(replies.io, rest.io)) =~= none.flatten() + m.inbox);
            (none, none)
        }
    }
}

// ---- polls as walks ----

/// Receiving makes its steps, and takes in what the lower layer gives.
pub proof fn lemma_receiving_is_steps<C: Crc, E>(
    m: Endpoint,
    crc: C,
    replies: Replies<E>,
    seen: usize,
)
    requires
        m.valid(),
        crate::lower::honest(replies.io),
        m.receiving(crc, replies, seen).out is Some,
    ensures
        ({
            let run = m.receiving(crc, replies, seen);
            let steps = crate::steps::receiving_steps(m, crc, replies, seen);
            let t = crate::steps::tally(m, crc, steps);
            &&& run.left.io.len() <= replies.io.len()
            &&& m.can_walk(crc, steps)
            &&& m.walked(crc, steps) == run.end
            &&& t == (Tally {
                given: bytes_given(used(replies.io, run.left.io)),
                got: t.got,
                queued: t.queued,
                ..Tally::none()
            })
        }),
    decreases replies.io.len(), m.inbox.len(),
{
    let run = m.receiving(crc, replies, seen);
    let steps = crate::steps::receiving_steps(m, crc, replies, seen);
    let none = Seq::<Step>::empty();
    assert(used(replies.io, replies.io) =~= Seq::empty());
    if m.wire_full() || seen == usize::MAX {
        assert(m.can_walk(crc, none));
    } else if m.oversized() {
        crate::steps::lemma_one_step(m, crc, Step::Dropped);
    } else if m.frame_ready() {
        let msg = m.first_message(crc);
        let reads = m.without_first().reads_clock(msg);
        let now = if reads {
            replies.clock[0]
        } else {
            Instant::of_millis(0)
        };
        let rest = if reads {
            replies.after_clock(1)
        } else {
            replies
        };
        let step = Step::Handled { now };
        let next = m.stepped(crc, step);
        crate::steps::lemma_step_keeps_valid(m, crc, step);
        lemma_receiving_is_steps(next, crc, rest, (seen + 1) as usize);
        let later = crate::steps::receiving_steps(next, crc, rest, (seen + 1) as usize);
        crate::steps::lemma_first_step(m, crc, step, later);
        assert(steps == seq![step] + later);
        let t = crate::steps::tally(m, crc, steps);
        assert(t =~= Tally {
            given: bytes_given(used(replies.io, run.left.io)),
            got: t.got,
            queued: t.queued,
            ..Tally::none()
        });
    } else {
        let event = replies.io[0];
        let rest = replies.after_io();
        lemma_honest_rest(replies.io, 1);
        lemma_single_call(event);
        assert(used(rest.io, rest.io) =~= Seq::empty());
        lemma_used_first(replies.io, rest.io);
        assert(event.honest());
        let bytes = bytes_given(seq![event]);
        if bytes.len() > 0 {
            let step = Step::Given { bytes };
            let next = m.stepped(crc, step);
            crate::steps::lemma_step_keeps_valid(m, crc, step);
            lemma_receiving_is_steps(next, crc, rest, seen);
            let later = crate::steps::receiving_steps(next, crc, rest, seen);
            crate::steps::lemma_first_step(m, crc, step, later);
            assert(steps == seq![step] + later);
            lemma_used_first(replies.io, run.left.io);
            let t = crate::steps::tally(m, crc, steps);
            assert(t =~= Tally {
                given: bytes_given(used(replies.io, run.left.io)),
                got: t.got,
                queued: t.queued,
                ..Tally::none()
            });
        } else {
            assert(m.can_walk(crc, none));
            assert(bytes_given(used(replies.io, rest.io)) =~= Seq::<u8>::empty());
        }
    }
}

/// Sending makes its steps, and the lower layer takes what they write.
pub proof fn lemma_draining_is_steps<C: Crc, E>(m: Endpoint, crc: C, replies: Replies<E>, sent: nat)
    requires
        m.valid(),
        crate::lower::honest(replies.io),
        m.draining(replies, sent).out is Some,
    ensures
        ({
            let run = m.draining(replies, sent);
            let steps = crate::steps::draining_steps(m, replies);
            &&& run.left.io.len() <= replies.io.len()
            &&& m.can_walk(crc, steps)
            &&& m.walked(crc, steps) == run.end
            &&& crate::steps::tally(m, crc, steps) == (Tally {
                taken: bytes_taken(used(replies.io, run.left.io)),
                ..Tally::none()
            })
        }),
    decreases replies.io.len(),
{
    let run = m.draining(replies, sent);
    let steps = crate::steps::draining_steps(m, replies);
    assert(used(replies.io, replies.io) =~= Seq::empty());
    if m.wire.len() > 0 {
        let event = replies.io[0];
        let rest = replies.after_io();
        lemma_honest_rest(replies.io, 1);
        lemma_single_call(event);
        assert(used(rest.io, rest.io) =~= Seq::empty());
        lemma_used_first(replies.io, rest.io);
        assert(event.honest());
        match event {
            LowerEvent::Write { offered, taken: Poll::Ready(Ok(n)) } => {
                if n > 0 {
                    let step = Step::Wrote { n: n as nat };
                    let next = m.stepped(crc, step);
                    crate::steps::lemma_step_keeps_valid(m, crc, step);
                    let later = if n >= offered.len() {
                        lemma_draining_is_steps(next, crc, rest, sent + n as nat);
                        lemma_used_first(replies.io, run.left.io);
                        crate::steps::draining_steps(next, rest)
                    } else {
                        Seq::empty()
                    };
                    crate::steps::lemma_first_step(m, crc, step, later);
                    assert(steps == seq![step] + later);
                    assert(crate::steps::tally(m, crc, steps) =~= Tally {
                        taken: bytes_taken(used(replies.io, run.left.io)),
                        ..Tally::none()
                    });
                } else {
                    assert(offered.take(0) =~= Seq::<u8>::empty());
                    assert(bytes_taken(used(replies.io, rest.io)) =~= Seq::<u8>::empty());
                }
            },
            _ => {
                assert(bytes_taken(used(replies.io, rest.io)) =~= Seq::<u8>::empty());
            },
        }
    }
}

/// These steps lead from `m` to `end`, taking in what the lower layer gave in the
/// calls `io` and giving it what it took, and handing `bytes` to the reader.
pub open spec fn leads_to<C: Crc, E>(
    m: Endpoint,
    crc: C,
    steps: Seq<Step>,
    end: Endpoint,
    io: Seq<LowerEvent<E>>,
    bytes: Seq<u8>,
) -> bool {
    let t = crate::steps::tally(m, crc, steps);
    &&& m.can_walk(crc, steps)
    &&& m.walked(crc, steps) == end
    &&& t.given == bytes_given(io)
    &&& t.taken == bytes_taken(io)
    &&& t.handed == bytes
    &&& t.accepted == Seq::<u8>::empty()
    &&& t.entered == Seq::<Seq<u8>>::empty()
}

/// The same, kept folded.
#[verifier::opaque]
spec fn leads<C: Crc, E>(
    m: Endpoint,
    crc: C,
    steps: Seq<Step>,
    end: Endpoint,
    io: Seq<LowerEvent<E>>,
    bytes: Seq<u8>,
) -> bool {
    leads_to(m, crc, steps, end, io, bytes)
}

/// Where sending ends within the pass of a poll.
spec fn pass_end<C: Crc, E>(m: Endpoint, crc: C, replies: Replies<E>) -> crate::endpoint::Run<
    E,
    Result<nat, ArqError<E>>,
> {
    let r = m.receiving(crc, replies, 0);
    r.end.ticked(crc, r.left.clock).draining(
        r.left.after_clock(r.end.tick_reads(r.left.clock)),
        0,
    )
}

/// The steps of a pass up to where sending ends.
spec fn pass_steps<C: Crc, E>(m: Endpoint, crc: C, replies: Replies<E>) -> Seq<Step> {
    let r = m.receiving(crc, replies, 0);
    let clock = r.left.clock;
    crate::steps::receiving_steps(m, crc, replies, 0) + seq![Step::Ticked { clock }]
        + crate::steps::draining_steps(
        r.end.ticked(crc, clock),
        r.left.after_clock(r.end.tick_reads(clock)),
    )
}

/// Receiving alone.
proof fn lemma_receiving_leads<C: Crc, E>(m: Endpoint, crc: C, replies: Replies<E>)
    requires
        m.valid(),
        crate::lower::honest(replies.io),
        m.receiving(crc, replies, 0).out is Some,
    ensures
        ({
            let r = m.receiving(crc, replies, 0);
            &&& leads(
                m,
                crc,
                crate::steps::receiving_steps(m, crc, replies, 0),
                r.end,
                used(replies.io, r.left.io),
                Seq::empty(),
            )
            &&& r.end.valid()
            &&& r.left.io.len() <= replies.io.len()
            &&& r.left.io == replies.io.skip(replies.io.len() - r.left.io.len())
            &&& crate::lower::honest(r.left.io)
        }),
{
    reveal(leads);
    let r = m.receiving(crc, replies, 0);
    let parts = law_receiving_in_order(m, crc, replies, 0);
    lemma_receiving_is_steps(m, crc, replies, 0);
    lemma_honest_rest(replies.io, replies.io.len() - r.left.io.len());
}

/// A pass up to where sending ends.
proof fn lemma_pass_leads<C: Crc, E>(m: Endpoint, crc: C, replies: Replies<E>)
    requires
        m.valid(),
        crate::lower::honest(replies.io),
        m.receiving(crc, replies, 0).out is Some,
        pass_end(m, crc, replies).out is Some,
    ensures
        ({
            let d = pass_end(m, crc, replies);
            &&& leads(
                m,
                crc,
                pass_steps(m, crc, replies),
                d.end,
                used(replies.io, d.left.io),
                Seq::empty(),
            )
            &&& d.end.valid()
            &&& d.left.io.len() <= replies.io.len()
            &&& d.left.io == replies.io.skip(replies.io.len() - d.left.io.len())
            &&& crate::lower::honest(d.left.io)
        }),
{
    reveal(leads);
    let r = m.receiving(crc, replies, 0);
    let clock = r.left.clock;
    let t = r.end.ticked(crc, clock);
    let rest = r.left.after_clock(r.end.tick_reads(clock));
    let d = t.draining(rest, 0);
    let first = crate::steps::receiving_steps(m, crc, replies, 0);
    let tick = Step::Ticked { clock };
    let last = crate::steps::draining_steps(t, rest);
    lemma_receiving_leads(m, crc, replies);
    crate::laws::law_time_keeps_valid(r.end, crc, clock);
    let parts = law_receiving_in_order(m, crc, replies, 0);
    law_draining_in_order(t, rest, 0);
    lemma_draining_is_steps(t, crc, rest, 0);
    lemma_used_twice(replies.io, r.left.io, d.left.io);
    lemma_honest_rest(replies.io, replies.io.len() - d.left.io.len());
    crate::steps::lemma_one_step(r.end, crc, tick);
    crate::steps::lemma_walks(m, crc, first, seq![tick]);
    crate::steps::lemma_walks(m, crc, first + seq![tick], last);
    let all = crate::steps::tally(m, crc, first + seq![tick] + last);
    assert(all.given =~= bytes_given(used(replies.io, d.left.io)));
    assert(all.taken =~= bytes_taken(used(replies.io, d.left.io)));
    assert(all.handed =~= Seq::<u8>::empty());
    assert(all.accepted =~= Seq::<u8>::empty());
    assert(all.entered =~= Seq::<Seq<u8>>::empty());
}

/// One walk after another, with the replies to both.
proof fn lemma_leads_on<C: Crc, E>(
    m: Endpoint,
    crc: C,
    a: Seq<Step>,
    mid: Endpoint,
    io1: Seq<LowerEvent<E>>,
    bytes1: Seq<u8>,
    b: Seq<Step>,
    end: Endpoint,
    io2: Seq<LowerEvent<E>>,
    bytes2: Seq<u8>,
)
    requires
        leads(m, crc, a, mid, io1, bytes1),
        leads(mid, crc, b, end, io2, bytes2),
    ensures
        leads(m, crc, a + b, end, io1 + io2, bytes1 + bytes2),
{
    reveal(leads);
    crate::steps::lemma_walks(m, crc, a, b);
    lemma_bytes_concat(io1, io2);
    let t = crate::steps::tally(m, crc, a + b);
    assert(t.accepted =~= Seq::<u8>::empty());
    assert(t.entered =~= Seq::<Seq<u8>>::empty());
}

/// Handing bytes to the reader.
proof fn lemma_handing_leads<C: Crc, E>(m: Endpoint, crc: C, room: nat)
    ensures
        leads(
            m,
            crc,
            seq![Step::Handed { room }],
            m.after_handing(room),
            Seq::<LowerEvent<E>>::empty(),
            m.handed(room),
        ),
{
    reveal(leads);
    crate::steps::lemma_one_step(m, crc, Step::Handed { room });
}

/// The pass of a poll, with what is handed over at its end.
proof fn lemma_whole_pass_leads<C: Crc, E>(m: Endpoint, crc: C, room: nat, replies: Replies<E>)
    requires
        m.valid(),
        crate::lower::honest(replies.io),
        m.receiving(crc, replies, 0).out is Some,
        pass_end(m, crc, replies).out is Some,
    ensures
        ({
            let d = pass_end(m, crc, replies);
            &&& leads(
                m,
                crc,
                pass_steps(m, crc, replies) + seq![Step::Handed { room }],
                d.end.after_handing(room),
                used(replies.io, d.left.io),
                d.end.handed(room),
            )
            &&& d.end.after_handing(room).valid()
            &&& d.left.io.len() <= replies.io.len()
            &&& d.left.io == replies.io.skip(replies.io.len() - d.left.io.len())
            &&& crate::lower::honest(d.left.io)
        }),
{
    let d = pass_end(m, crc, replies);
    let io = used(replies.io, d.left.io);
    lemma_pass_leads(m, crc, replies);
    lemma_handing_leads::<C, E>(d.end, crc, room);
    lemma_leads_on(
        m,
        crc,
        pass_steps(m, crc, replies),
        d.end,
        io,
        Seq::empty(),
        seq![Step::Handed { room }],
        d.end.after_handing(room),
        Seq::empty(),
        d.end.handed(room),
    );
    assert(io + Seq::empty() =~= io);
    assert(Seq::empty() + d.end.handed(room) =~= d.end.handed(room));
    crate::laws::law_upper_layer_keeps_valid(d.end, room, Seq::empty());
}

#[verifier::rlimit(20)]
proof fn lemma_poll_leads<C: Crc, E>(
    m: Endpoint,
    crc: C,
    room: nat,
    replies: Replies<E>,
)
    requires
        m.valid(),
        crate::lower::honest(replies.io),
    ensures
        m.polled(crc, room, replies).out matches Some(out) ==> {
            let run = m.polled(crc, room, replies);
            &&& leads(
                m,
                crc,
                crate::steps::polling_steps(m, crc, room, replies),
                run.end,
                used(replies.io, run.left.io),
                out.bytes,
            )
            &&& run.left.io.len() <= replies.io.len()
            &&& run.left.io == replies.io.skip(replies.io.len() - run.left.io.len())
        },
    decreases replies.io.len(),
{
    let run = m.polled(crc, room, replies);
    let steps = crate::steps::polling_steps(m, crc, room, replies);
    let r = m.receiving(crc, replies, 0);
    if let Some(out) = run.out {
        lemma_receiving_leads(m, crc, replies);
        if let Some(Ok(frames_in)) = r.out {
            let d = pass_end(m, crc, replies);
            let drained = pass_steps(m, crc, replies);
            lemma_pass_leads(m, crc, replies);
            if let Some(Ok(bytes_out)) = d.out {
                let next = d.end.after_handing(room);
                let ends = d.end.handed(room).len() > 0 || r.end.gives_up(r.left.clock) || (
                frames_in == 0 && bytes_out == 0 && !next.more_to_hand(room));
                let io = used(replies.io, d.left.io);
                let pass = drained + seq![Step::Handed { room }];
                lemma_whole_pass_leads(m, crc, room, replies);
                if !ends {
                    let later = crate::steps::polling_steps(
                        next,
                        crc,
                        room,
                        d.left,
                    );
                    assert(run == next.polled(crc, room, d.left));
                    assert(steps == pass + later);
                    assert(d.end.handed(room) =~= Seq::<u8>::empty());
                    lemma_poll_leads(next, crc, room, d.left);
                    let rest = used(d.left.io, run.left.io);
                    lemma_leads_on(
                        m,
                        crc,
                        pass,
                        next,
                        io,
                        Seq::empty(),
                        later,
                        run.end,
                        rest,
                        out.bytes,
                    );
                    lemma_used_twice(replies.io, d.left.io, run.left.io);
                    assert(used(replies.io, run.left.io) =~= io + rest);
                    assert(Seq::empty() + out.bytes =~= out.bytes);
                } else {
                    assert(run.end == next && run.left == d.left);
                    assert(out.bytes == d.end.handed(room));
                }
            } else {
                assert(steps == drained);
                assert(run.end == d.end && run.left == d.left);
                assert(out.bytes == Seq::<u8>::empty());
            }
        } else {
            assert(steps == crate::steps::receiving_steps(m, crc, replies, 0));
            assert(run.end == r.end && run.left == r.left);
            assert(out.bytes == Seq::<u8>::empty());
        }
    }
}

/// A poll is a walk: its steps lead to the state that it leaves, take in what the
/// lower layer gave in its calls and give it what it took, and hand the reader the
/// bytes that the poll reports.
pub proof fn law_poll_is_steps<C: Crc, E>(
    m: Endpoint,
    crc: C,
    room: nat,
    replies: Replies<E>,
)
    requires
        m.valid(),
        crate::lower::honest(replies.io),
    ensures
        m.polled(crc, room, replies).out matches Some(out) ==> {
            let run = m.polled(crc, room, replies);
            &&& leads_to(
                m,
                crc,
                crate::steps::polling_steps(m, crc, room, replies),
                run.end,
                used(replies.io, run.left.io),
                out.bytes,
            )
            &&& run.left.io.len() <= replies.io.len()
            &&& run.left.io == replies.io.skip(replies.io.len() - run.left.io.len())
        },
{
    reveal(leads);
    lemma_poll_leads(m, crc, room, replies);
}

/// What goes in and out of one end goes through it in order: payloads are sent from
/// the front of what was written, and what the reader gets comes off the front of
/// what was received; payloads are sent in the order in which they were queued; and
/// what the lower layer takes comes off the front of the frames that were queued,
/// which are whole.
pub open spec fn in_order<C: Crc>(m: Endpoint, crc: C, t: Tally, end: Endpoint) -> bool {
    &&& unsent(m) + t.accepted == t.sent.flatten() + unsent(end)
    &&& unread(m) + t.got.flatten() == t.handed + unread(end)
    &&& m.outgoing + t.entered == t.sent + end.outgoing
    &&& on_wire(m) + t.queued.flatten() == t.taken + on_wire(end)
    &&& are_frames(crc, t.queued)
}

proof fn lemma_nothing_flat()
    ensures
        Seq::<Seq<u8>>::empty().flatten() == Seq::<u8>::empty(),
{
}

/// A single payload or frame.
proof fn lemma_one_flat(p: Seq<u8>)
    ensures
        seq![p].flatten() == p,
{
    let none = Seq::<Seq<u8>>::empty();
    lemma_nothing_flat();
    none.lemma_flatten_push(p);
    assert(none.push(p) =~= seq![p]);
    assert(Seq::<u8>::empty() + p =~= p);
}

/// What a step does to the upper side.
pub proof fn lemma_step_payloads<C: Crc>(m: Endpoint, crc: C, step: Step)
    requires
        m.valid(),
        m.can(step),
    ensures
        ({
            let t = crate::steps::step_tally(m, crc, step);
            let end = m.stepped(crc, step);
            &&& unsent(m) + t.accepted == t.sent.flatten() + unsent(end)
            &&& unread(m) + t.got.flatten() == t.handed + unread(end)
            &&& m.outgoing + t.entered == t.sent + end.outgoing
        }),
{
    let t = crate::steps::step_tally(m, crc, step);
    let end = m.stepped(crc, step);
    let none = Seq::<u8>::empty();
    lemma_nothing_flat();
    assert(unsent(m) + none =~= none + unsent(m));
    assert(unread(m) + none =~= none + unread(m));
    assert(m.outgoing + Seq::<Seq<u8>>::empty() =~= Seq::<Seq<u8>>::empty() + m.outgoing);
    match step {
        Step::Handled { now } => {
            let m1 = m.without_first();
            let msg = m.first_message(crc);
            law_received_in_order(m1, crc, msg, now);
            crate::laws::law_messages_send_nothing_new(m1, crc, msg, now);
            crate::laws::law_only_expected_is_taken(m1, crc, msg, now);
            if end.incoming.len() > m.incoming.len() {
                assert(t.got =~= seq![msg.payload]);
                lemma_one_flat(msg.payload);
            } else {
                assert(t.got =~= Seq::<Seq<u8>>::empty());
            }
            assert(unread(m) + t.got.flatten() =~= none + unread(end));
        },
        Step::Ticked { clock } => {
            law_sending_in_order(m, crc, clock);
            if m.can_send() {
                lemma_one_flat(m.outgoing.first());
                assert(m.outgoing + t.entered =~= t.sent + end.outgoing);
                assert(unsent(m) + none =~= unsent(m));
            }
        },
        Step::Handed { room } => {
            law_reading_in_order(m, room);
            assert(unread(m) + none =~= unread(m));
        },
        Step::Accepted { data } => {
            law_writing_in_order(m, data);
            assert(m.outgoing + t.entered =~= t.sent + end.outgoing);
            assert(none + unsent(end) =~= unsent(end));
        },
        Step::PushedOut => {
            law_flushing_keeps_order(m);
            assert(m.outgoing + t.entered =~= t.sent + end.outgoing);
        },
        _ => {},
    }
}

/// What a step does to the wire.
proof fn lemma_step_frames<C: Crc>(m: Endpoint, crc: C, step: Step)
    requires
        m.valid(),
        m.can(step),
    ensures
        ({
            let t = crate::steps::step_tally(m, crc, step);
            &&& on_wire(m) + t.queued.flatten() == t.taken + on_wire(m.stepped(crc, step))
            &&& are_frames(crc, t.queued)
        }),
{
    let t = crate::steps::step_tally(m, crc, step);
    let end = m.stepped(crc, step);
    let none = Seq::<u8>::empty();
    lemma_nothing_flat();
    assert(on_wire(m) + none =~= none + on_wire(m));
    match step {
        Step::Handled { now } => {
            let queued = lemma_message_queues(m.without_first(), crc, m.first_message(crc), now);
            vstd::seq_lib::lemma_flatten_concat(m.wire, queued);
            assert(t.queued =~= queued);
            assert(none + on_wire(end) =~= on_wire(end));
        },
        Step::Ticked { clock } => {
            let queued = lemma_time_queues(m, crc, clock);
            vstd::seq_lib::lemma_flatten_concat(m.wire, queued);
            assert(t.queued =~= queued);
            assert(none + on_wire(end) =~= on_wire(end));
        },
        Step::Wrote { n } => {
            law_written_in_order(m, n);
            assert(on_wire(m) + none =~= on_wire(m));
        },
        _ => {},
    }
}

/// Two portions in order are in order as a whole.
proof fn lemma_chain<A>(
    x: Seq<A>,
    in1: Seq<A>,
    out1: Seq<A>,
    y: Seq<A>,
    in2: Seq<A>,
    out2: Seq<A>,
    z: Seq<A>,
)
    requires
        x + in1 == out1 + y,
        y + in2 == out2 + z,
    ensures
        x + (in1 + in2) == (out1 + out2) + z,
{
    assert(x + (in1 + in2) =~= (x + in1) + in2);
    assert((out1 + y) + in2 =~= out1 + (y + in2));
    assert(out1 + (out2 + z) =~= (out1 + out2) + z);
}

/// Whatever steps one end makes, what goes in and out goes through it in order.
pub proof fn law_steps_keep_order<C: Crc>(m: Endpoint, crc: C, steps: Seq<Step>)
    requires
        m.valid(),
        m.can_walk(crc, steps),
    ensures
        in_order(m, crc, crate::steps::tally(m, crc, steps), m.walked(crc, steps)),
    decreases steps.len(),
{
    if steps.len() == 0 {
        lemma_nothing_flat();
        let none = Seq::<u8>::empty();
        assert(unsent(m) + none =~= none + unsent(m));
        assert(unread(m) + none =~= none + unread(m));
        assert(on_wire(m) + none =~= none + on_wire(m));
        assert(m.outgoing + Seq::<Seq<u8>>::empty() =~= Seq::<Seq<u8>>::empty() + m.outgoing);
    } else {
        let fewer = steps.drop_last();
        let mid = m.walked(crc, fewer);
        law_steps_keep_order(m, crc, fewer);
        crate::steps::law_steps_keep_valid(m, crc, fewer);
        lemma_step_payloads(mid, crc, steps.last());
        lemma_step_frames(mid, crc, steps.last());
        let t1 = crate::steps::tally(m, crc, fewer);
        let t2 = crate::steps::step_tally(mid, crc, steps.last());
        lemma_in_order(m, crc, t1, mid, t2, m.walked(crc, steps));
    }
}

proof fn lemma_in_order<C: Crc>(
    m: Endpoint,
    crc: C,
    t1: Tally,
    mid: Endpoint,
    t2: Tally,
    end: Endpoint,
)
    requires
        in_order(m, crc, t1, mid),
        in_order(mid, crc, t2, end),
    ensures
        in_order(m, crc, t1.and(t2), end),
{
    vstd::seq_lib::lemma_flatten_concat(t1.sent, t2.sent);
    vstd::seq_lib::lemma_flatten_concat(t1.got, t2.got);
    lemma_frames_concat(crc, t1.queued, t2.queued);
    lemma_chain(
        unsent(m),
        t1.accepted,
        t1.sent.flatten(),
        unsent(mid),
        t2.accepted,
        t2.sent.flatten(),
        unsent(end),
    );
    lemma_chain(
        unread(m),
        t1.got.flatten(),
        t1.handed,
        unread(mid),
        t2.got.flatten(),
        t2.handed,
        unread(end),
    );
    lemma_chain(
        m.outgoing,
        t1.entered,
        t1.sent,
        mid.outgoing,
        t2.entered,
        t2.sent,
        end.outgoing,
    );
    lemma_chain(
        on_wire(m),
        t1.queued.flatten(),
        t1.taken,
        on_wire(mid),
        t2.queued.flatten(),
        t2.taken,
        on_wire(end),
    );
}

/// Over a poll, too: the payloads that it sends come off the front of what was
/// written, and what it hands to the reader comes off the front of what was received
/// before, followed by the payloads that it receives; and the bytes that the lower
/// layer took and those that still wait are the bytes that waited before, followed by
/// whole frames.
pub proof fn law_poll_keeps_order<C: Crc, E>(
    m: Endpoint,
    crc: C,
    room: nat,
    replies: Replies<E>,
)
    requires
        m.valid(),
        crate::lower::honest(replies.io),
    ensures
        m.polled(crc, room, replies).out matches Some(out) ==> {
            let run = m.polled(crc, room, replies);
            let steps = crate::steps::polling_steps(m, crc, room, replies);
            let t = crate::steps::tally(m, crc, steps);
            &&& unsent(m) == t.sent.flatten() + unsent(run.end)
            &&& unread(m) + t.got.flatten() == out.bytes + unread(run.end)
            &&& on_wire(m) + t.queued.flatten() == bytes_taken(used(replies.io, run.left.io))
                + on_wire(run.end)
            &&& are_frames(crc, t.queued)
        },
{
    if m.polled(crc, room, replies).out is Some {
        let steps = crate::steps::polling_steps(m, crc, room, replies);
        law_poll_is_steps(m, crc, room, replies);
        law_steps_keep_order(m, crc, steps);
        assert(unsent(m) + Seq::empty() =~= unsent(m));
    }
}

} // verus!
