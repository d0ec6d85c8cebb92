//! What the calls of an end report, in terms of what the lower layer said.

use crate::crc::Crc;
use crate::endpoint::{Endpoint, Polled, Replies};
use crate::error::ArqError;
use crate::lower::LowerEvent;
use core::task::Poll;
use vstd::prelude::*;

verus! {

/// What the reply to a call means for the link: the lower layer's own error, or the
/// end of the stream where it neither gives nor takes a byte. Any other reply means
/// nothing.
pub open spec fn fault<E>(event: LowerEvent<E>) -> Option<ArqError<E>> {
    match event {
        LowerEvent::Read { got: Poll::Ready(Err(e)), .. } => Some(ArqError::Io(e)),
        LowerEvent::Write { taken: Poll::Ready(Err(e)), .. } => Some(ArqError::Io(e)),
        LowerEvent::Flush { flushed: Poll::Ready(Err(e)) } => Some(ArqError::Io(e)),
        LowerEvent::Read { got: Poll::Ready(Ok(bytes)), .. } => if bytes.len() == 0 {
            Some(ArqError::Closed)
        } else {
            None
        },
        LowerEvent::Write { taken: Poll::Ready(Ok(n)), .. } => if n == 0 {
            Some(ArqError::Closed)
        } else {
            None
        },
        _ => None,
    }
}

/// Of the calls `io`, of which `left` were not made, the number made.
pub open spec fn made<E>(io: Seq<LowerEvent<E>>, left: Seq<LowerEvent<E>>) -> int {
    io.len() - left.len()
}

/// The lower layer stands in the way of sending: the last call made offered it bytes,
/// of which it took some or none for now.
pub open spec fn write_held_up<E>(io: Seq<LowerEvent<E>>, n: int) -> bool {
    n > 0 && match io[n - 1] {
        LowerEvent::Write { taken: Poll::Pending, .. } => true,
        LowerEvent::Write { offered, taken: Poll::Ready(Ok(k)) } => 0 < k < offered.len(),
        _ => false,
    }
}

/// The calls that receiving makes.
pub proof fn lemma_receiving_calls<C: Crc, E>(m: Endpoint, crc: C, replies: Replies<E>, seen: usize)
    requires
        m.receiving(crc, replies, seen).out is Some,
    ensures
        ({
            let run = m.receiving(crc, replies, seen);
            let n = made(replies.io, run.left.io);
            &&& n >= 0
            &&& run.left.io == replies.io.skip(n)
            &&& forall|i: int| 0 <= i < n ==> (#[trigger] replies.io[i]) is Read
            &&& forall|i: int| 0 <= i < n - 1 ==> fault(#[trigger] replies.io[i]) is None
            &&& match run.out {
                Some(Ok(_)) => (n > 0 ==> fault(replies.io[n - 1]) is None) && run.end.recv.framing
                    == m.recv.framing,
                Some(Err(ArqError::Framing)) => (n > 0 ==> fault(replies.io[n - 1]) is None)
                    && run.end.recv.framing == crate::duties::one_more(m.recv.framing)
                    && run.end.inbox.len() == 0,
                Some(Err(e)) => n > 0 && fault(replies.io[n - 1]) == Some(e)
                    && run.end.recv.framing == m.recv.framing && !(e is Timeout),
                None => false,
            }
        }),
    decreases replies.io.len(), m.inbox.len(),
{
    let run = m.receiving(crc, replies, seen);
    let io = replies.io;
    if m.wire_full() || seen == usize::MAX || m.oversized() {
        assert(io.skip(0) =~= io);
    } else if m.frame_ready() {
        let msg = m.first_message(crc);
        let m1 = m.without_first();
        let reads = m1.reads_clock(msg);
        let now = if reads {
            replies.clock[0]
        } else {
            crate::time::Instant::of_millis(0)
        };
        let rest = if reads {
            replies.after_clock(1)
        } else {
            replies
        };
        lemma_receiving_calls(m1.on_message(crc, msg, now), crc, rest, (seen + 1) as usize);
    } else {
        let rest = replies.after_io();
        assert(io.skip(1).skip(0) =~= io.skip(1));
        if let LowerEvent::Read { got: Poll::Ready(Ok(bytes)), .. } = io[0] {
            if bytes.len() > 0 {
                let next = Endpoint { inbox: m.inbox + bytes, ..m };
                lemma_receiving_calls(next, crc, rest, seen);
                let k = made(rest.io, run.left.io);
                assert(rest.io.skip(k) =~= io.skip(k + 1));
                assert forall|i: int| 0 <= i < k + 1 implies (#[trigger] io[i]) is Read by {
                    if i > 0 {
                        assert(io[i] == rest.io[i - 1]);
                    }
                }
                assert forall|i: int| 0 <= i < k implies fault(#[trigger] io[i]) is None by {
                    if i > 0 {
                        assert(io[i] == rest.io[i - 1]);
                    }
                }
                if k > 0 {
                    assert(io[k] == rest.io[k - 1]);
                }
            }
        }
    }
}

/// The calls that sending makes.
proof fn lemma_draining_calls<E>(m: Endpoint, replies: Replies<E>, sent: nat)
    requires
        m.draining(replies, sent).out is Some,
    ensures
        ({
            let run = m.draining(replies, sent);
            let n = made(replies.io, run.left.io);
            &&& n >= 0
            &&& run.left.io == replies.io.skip(n)
            &&& run.left.clock == replies.clock
            &&& run.end == (Endpoint { wire: run.end.wire, ..m })
            &&& forall|i: int| 0 <= i < n ==> (#[trigger] replies.io[i]) is Write
            &&& forall|i: int| 0 <= i < n - 1 ==> fault(#[trigger] replies.io[i]) is None
            &&& match run.out {
                Some(Ok(_)) => (n > 0 ==> fault(replies.io[n - 1]) is None) && (
                run.end.wire.len() == 0 || write_held_up(replies.io, n)),
                Some(Err(e)) => n > 0 && fault(replies.io[n - 1]) == Some(e) && !(e is Timeout)
                    && !(e is Framing),
                None => false,
            }
        }),
    decreases replies.io.len(),
{
    let run = m.draining(replies, sent);
    let io = replies.io;
    if m.wire.len() == 0 {
        assert(io.skip(0) =~= io);
    } else {
        let rest = replies.after_io();
        assert(io.skip(1).skip(0) =~= io.skip(1));
        if let LowerEvent::Write { offered, taken: Poll::Ready(Ok(n)) } = io[0] {
            if n > 0 && n >= offered.len() {
                lemma_draining_calls(m.wrote(n as nat), rest, sent + n as nat);
                let k = made(rest.io, run.left.io);
                assert(rest.io.skip(k) =~= io.skip(k + 1));
                assert forall|i: int| 0 <= i < k + 1 implies (#[trigger] io[i]) is Write by {
                    if i > 0 {
                        assert(io[i] == rest.io[i - 1]);
                    }
                }
                assert forall|i: int| 0 <= i < k implies fault(#[trigger] io[i]) is None by {
                    if i > 0 {
                        assert(io[i] == rest.io[i - 1]);
                    }
                }
                if k > 0 {
                    assert(io[k] == rest.io[k - 1]);
                }
            }
        }
    }
}

/// A call has reported success.
pub open spec fn succeeded<V, E>(result: Poll<Result<V, ArqError<E>>>) -> bool {
    result matches Poll::Ready(Ok(_))
}

/// A call has reported a frame that is too long.
pub open spec fn misframed<V, E>(result: Poll<Result<V, ArqError<E>>>) -> bool {
    result matches Poll::Ready(Err(ArqError::Framing))
}

/// What a poll reports, given that it made the first `n` of the calls `io`.
pub open spec fn reported<E>(
    m: Endpoint,
    end: Endpoint,
    io: Seq<LowerEvent<E>>,
    n: int,
    out: Polled<E>,
) -> bool {
    let last = if n > 0 {
        fault(io[n - 1])
    } else {
        None
    };
    // A fault of the lower layer ends the poll at once.
    &&& forall|i: int| 0 <= i < n - 1 ==> fault(#[trigger] io[i]) is None
    &&& forall|i: int| 0 <= i < n ==> !((#[trigger] io[i]) is Flush)
    // It is what the poll reports, and no other fault is reported.
    &&& (last matches Some(e) ==> out.result == Poll::<Result<(), ArqError<E>>>::Ready(Err(e)))
    &&& match out.result {
        Poll::Ready(Err(ArqError::Io(e))) => last == Some(ArqError::Io(e)),
        Poll::Ready(Err(ArqError::Closed)) => last == Some(ArqError::<E>::Closed),
        _ => last is None,
    }
    // A frame that is too long is reported and counted, and its bytes are dropped.
    &&& if misframed(out.result) {
        end.recv.framing == crate::duties::one_more(m.recv.framing) && end.inbox.len() == 0
    } else {
        end.recv.framing == m.recv.framing
    }
    // Success is reported with bytes, and nothing else is.
    &&& (out.bytes.len() > 0 <==> succeeded(out.result))
    // Without a fault, what can be sent is sent.
    &&& last is None && !misframed(out.result) ==> end.wire.len() == 0 || write_held_up(io, n)
}

/// The same, kept folded.
#[verifier::opaque]
spec fn reports<E>(
    m: Endpoint,
    end: Endpoint,
    io: Seq<LowerEvent<E>>,
    n: int,
    out: Polled<E>,
) -> bool {
    reported(m, end, io, n, out)
}

/// The pass of a poll up to where sending ends.
pub proof fn lemma_pass_calls<C: Crc, E>(m: Endpoint, crc: C, replies: Replies<E>)
    requires
        m.receiving(crc, replies, 0).out matches Some(Ok(_)),
    ensures
        ({
            let r = m.receiving(crc, replies, 0);
            let clock = r.left.clock;
            let t = r.end.ticked(crc, clock);
            let d = t.draining(r.left.after_clock(r.end.tick_reads(clock)), 0);
            let n = made(replies.io, d.left.io);
            d.out is Some ==> {
                &&& n >= 0
                &&& d.left.io == replies.io.skip(n)
                &&& d.end.recv.framing == m.recv.framing
                &&& forall|i: int| 0 <= i < n ==> !((#[trigger] replies.io[i]) is Flush)
                &&& forall|i: int| 0 <= i < n - 1 ==> fault(#[trigger] replies.io[i]) is None
                &&& match d.out {
                    Some(Ok(_)) => (n > 0 ==> fault(replies.io[n - 1]) is None) && (
                    d.end.wire.len() == 0 || write_held_up(replies.io, n)),
                    Some(Err(e)) => n > 0 && fault(replies.io[n - 1]) == Some(e) && !(e is Timeout)
                        && !(e is Framing),
                    None => false,
                }
            }
        }),
{
    let r = m.receiving(crc, replies, 0);
    let clock = r.left.clock;
    let t = r.end.ticked(crc, clock);
    let rest = r.left.after_clock(r.end.tick_reads(clock));
    let d = t.draining(rest, 0);
    lemma_receiving_calls(m, crc, replies, 0);
    if d.out is Some {
        lemma_draining_calls(t, rest, 0);
        lemma_then(replies.io, r.left.io, d.left.io);
    }
}

/// A pass without a fault, and the rest of the poll after it.
proof fn lemma_reports_on<E>(
    m: Endpoint,
    mid: Endpoint,
    end: Endpoint,
    io: Seq<LowerEvent<E>>,
    a: int,
    n: int,
    out: Polled<E>,
)
    requires
        0 <= a <= n <= io.len(),
        mid.recv.framing == m.recv.framing,
        forall|i: int| 0 <= i < a ==> !((#[trigger] io[i]) is Flush) && fault(io[i]) is None,
        reports(mid, end, io.skip(a), n - a, out),
    ensures
        reports(m, end, io, n, out),
{
    reveal(reports);
    let rest = io.skip(a);
    assert forall|i: int| a <= i < n implies #[trigger] io[i] == rest[i - a] by {}
    if n > a {
        assert(io[n - 1] == rest[n - a - 1]);
    }
}

proof fn lemma_poll_reports<C: Crc, E>(m: Endpoint, crc: C, room: nat, replies: Replies<E>)
    ensures
        m.polled(crc, room, replies).out matches Some(out) ==> {
            let run = m.polled(crc, room, replies);
            let n = made(replies.io, run.left.io);
            &&& n >= 0
            &&& run.left.io == replies.io.skip(n)
            &&& reports(m, run.end, replies.io, n, out)
        },
    decreases replies.io.len(),
{
    let run = m.polled(crc, room, replies);
    if let Some(out) = run.out {
        let r = m.receiving(crc, replies, 0);
        if let Some(Ok(frames_in)) = r.out {
            let clock = r.left.clock;
            let t = r.end.ticked(crc, clock);
            let rest = r.left.after_clock(r.end.tick_reads(clock));
            let d = t.draining(rest, 0);
            lemma_pass_calls(m, crc, replies);
            let next = d.end.after_handing(room);
            let ends = match d.out {
                Some(Ok(bytes_out)) => d.end.handed(room).len() > 0 || r.end.gives_up(clock) || (
                frames_in == 0 && bytes_out == 0 && !next.more_to_hand(room)),
                _ => true,
            };
            if ends {
                reveal(reports);
            } else {
                assert(run == next.polled(crc, room, d.left));
                lemma_poll_reports(next, crc, room, d.left);
                lemma_then(replies.io, d.left.io, run.left.io);
                lemma_reports_on(
                    m,
                    next,
                    run.end,
                    replies.io,
                    made(replies.io, d.left.io),
                    made(replies.io, run.left.io),
                    out,
                );
            }
        } else {
            lemma_receiving_calls(m, crc, replies, 0);
            reveal(reports);
        }
    }
}

/// A poll reports a fault of the lower layer exactly where there was one, and the one
/// that there was: its error as `Io`, its end as `Closed`. It reports `Framing` exactly
/// where it met a frame that is too long, and success exactly where it hands over bytes.
pub proof fn law_poll_reports<C: Crc, E>(m: Endpoint, crc: C, room: nat, replies: Replies<E>)
    ensures
        m.polled(crc, room, replies).out matches Some(out) ==> {
            let run = m.polled(crc, room, replies);
            let n = made(replies.io, run.left.io);
            &&& n >= 0
            &&& run.left.io == replies.io.skip(n)
            &&& reported(m, run.end, replies.io, n, out)
        },
{
    reveal(reports);
    lemma_poll_reports(m, crc, room, replies);
}

/// Calls made in two portions.
proof fn lemma_then<E>(io: Seq<LowerEvent<E>>, mid: Seq<LowerEvent<E>>, left: Seq<LowerEvent<E>>)
    requires
        made(io, mid) >= 0,
        mid == io.skip(made(io, mid)),
        made(mid, left) >= 0,
        left == mid.skip(made(mid, left)),
    ensures
        made(io, left) == made(io, mid) + made(mid, left),
        left == io.skip(made(io, left)),
        forall|i: int|
            made(io, mid) <= i < made(io, left) ==> #[trigger] io[i] == mid[i - made(io, mid)],
{
    assert(left =~= io.skip(made(io, left)));
}

/// The first call of a poll. Where there is room on the wire and no whole frame to
/// handle, it asks for as many bytes as the inbox has room for; where there is none, it
/// offers all that is left of the first frame in line.
pub proof fn law_first_call<C: Crc, E>(m: Endpoint, crc: C, room: nat, replies: Replies<E>)
    requires
        m.polled(crc, room, replies).out is Some,
    ensures
        m.wire.len() < 3 && (m.inbox.len() < 5 || m.inbox.len() < 5 + m.inbox[2] <= 256) ==> {
            &&& replies.io.len() > 0
            &&& replies.io[0] is Read
            &&& replies.io[0]->room == 256 - m.inbox.len()
        },
        m.wire.len() >= 3 ==> {
            &&& replies.io.len() > 0
            &&& replies.io[0] is Write
            &&& replies.io[0]->offered == m.wire[0]
        },
{
    let r = m.receiving(crc, replies, 0);
    if m.wire.len() >= 3 {
        lemma_tick_keeps_the_front(m, crc, replies.clock);
    }
}

/// Time takes nothing off the wire.
proof fn lemma_tick_keeps_the_front<C: Crc>(
    m: Endpoint,
    crc: C,
    clock: Seq<crate::time::Instant>,
)
    ensures
        m.wire.len() <= m.ticked(crc, clock).wire.len(),
        m.wire.len() > 0 ==> m.ticked(crc, clock).wire[0] == m.wire[0],
{
}

/// Receiving leaves alone what the reader is reading, and takes nothing away from what
/// waits for the reader.
proof fn lemma_receiving_adds<C: Crc, E>(m: Endpoint, crc: C, replies: Replies<E>, seen: usize)
    ensures
        ({
            let end = m.receiving(crc, replies, seen).end;
            &&& end.partial == m.partial
            &&& m.incoming.len() <= end.incoming.len()
            &&& m.incoming.len() > 0 ==> end.incoming[0] == m.incoming[0]
        }),
    decreases replies.io.len(), m.inbox.len(),
{
    if m.wire_full() || seen == usize::MAX || m.oversized() {
    } else if m.frame_ready() {
        let msg = m.first_message(crc);
        let m1 = m.without_first();
        let reads = m1.reads_clock(msg);
        let now = if reads {
            replies.clock[0]
        } else {
            crate::time::Instant::of_millis(0)
        };
        let rest = if reads {
            replies.after_clock(1)
        } else {
            replies
        };
        lemma_receiving_adds(m1.on_message(crc, msg, now), crc, rest, (seen + 1) as usize);
    } else if replies.io.len() > 0 {
        if let LowerEvent::Read { got: Poll::Ready(Ok(bytes)), .. } = replies.io[0] {
            let next = Endpoint { inbox: m.inbox + bytes, ..m };
            lemma_receiving_adds(next, crc, replies.after_io(), seen);
        }
    }
}

/// A poll with room for bytes hands over what waits, unless it fails: of the payload that
/// is being read, or else of the oldest that waits, as much as there is room for. It hands
/// over bytes of that payload alone, and the rest of it stays.
pub proof fn law_poll_hands_over<C: Crc, E>(m: Endpoint, crc: C, room: nat, replies: Replies<E>)
    requires
        room > 0,
        m.partial.len() > 0 || m.incoming.len() > 0 && m.incoming[0].len() > 0,
    ensures
        m.polled(crc, room, replies).out matches Some(out) ==> {
            let run = m.polled(crc, room, replies);
            let n = made(replies.io, run.left.io);
            let waits = if m.partial.len() > 0 {
                m.partial
            } else {
                m.incoming[0]
            };
            if misframed(out.result) || n > 0 && fault(replies.io[n - 1]) is Some {
                out.bytes.len() == 0
            } else {
                &&& succeeded(out.result)
                &&& out.bytes.len() == if room < waits.len() {
                    room
                } else {
                    waits.len()
                }
                &&& waits == out.bytes + run.end.partial
            }
        },
{
    let run = m.polled(crc, room, replies);
    if run.out is Some {
        let r = m.receiving(crc, replies, 0);
        let clock = r.left.clock;
        let t = r.end.ticked(crc, clock);
        let rest = r.left.after_clock(r.end.tick_reads(clock));
        lemma_receiving_adds(m, crc, replies, 0);
        lemma_draining_leaves_alone(t, rest, 0);
        lemma_receiving_calls(m, crc, replies, 0);
        if let Some(Ok(_)) = r.out {
            let d = t.draining(rest, 0);
            lemma_pass_calls(m, crc, replies);
            assert(d.end.readable() =~= d.end.handed(room) + d.end.after_handing(room).partial);
        }
    }
}

// ---- reading and writing ----

/// Reading fails exactly where the poll that it drives fails, with the same error; it
/// is pending exactly where that poll is; and otherwise it reports how many bytes the
/// poll has put into the buffer.
pub proof fn law_reading_reports<E>(polled: Polled<E>, e: ArqError<E>)
    requires
        polled.bytes.len() <= usize::MAX,
    ensures
        ({
            let result = polled.read_result();
            &&& (polled.result == Poll::<Result<(), ArqError<E>>>::Ready(Err(e)) <==> result
                == Poll::<Result<usize, ArqError<E>>>::Ready(Err(e)))
            &&& (polled.result is Pending <==> result is Pending)
            &&& (succeeded(polled.result) <==> succeeded(result))
            &&& (result matches Poll::Ready(Ok(n)) ==> n == polled.bytes.len())
        }),
{
}

/// Writing fails exactly where the poll that it drives fails, with the same error.
/// Otherwise it reports how many bytes were taken; only where there are bytes and none
/// was taken is it pending.
pub proof fn law_writing_reports<E>(
    m: Endpoint,
    data: Seq<u8>,
    polled: Poll<Result<(), ArqError<E>>>,
    e: ArqError<E>,
)
    requires
        m.valid(),
    ensures
        ({
            let result = m.write_result(data, polled);
            let room = 251 * (4 - m.outgoing.len()) + 251 - m.staging.len();
            let failed = !(polled is Pending) && !succeeded(polled);
            &&& (polled == Poll::<Result<(), ArqError<E>>>::Ready(Err(e)) <==> result
                == Poll::<Result<usize, ArqError<E>>>::Ready(Err(e)))
            &&& (result is Pending <==> !failed && data.len() > 0 && room == 0)
            &&& (succeeded(result) <==> !failed && (data.len() == 0 || room > 0))
            &&& (result matches Poll::Ready(Ok(n)) ==> n == if data.len() <= room {
                data.len() as int
            } else {
                room
            })
        }),
{
}

// ---- flushing ----

/// Nothing of what was written is still to be sent or to be acknowledged.
pub open spec fn at_rest(m: Endpoint) -> bool {
    &&& m.staging.len() == 0
    &&& m.outgoing.len() == 0
    &&& m.wire.len() == 0
    &&& m.state is Idle
}

/// Whatever the lower layer says, a poll leaves alone what is staged and how often a
/// payload is sent again.
pub proof fn law_poll_leaves_alone<C: Crc, E>(
    m: Endpoint,
    crc: C,
    room: nat,
    replies: Replies<E>,
)
    ensures
        m.polled(crc, room, replies).end.staging == m.staging,
        m.polled(crc, room, replies).end.max_resend == m.max_resend,
    decreases replies.io.len(),
{
    let r = m.receiving(crc, replies, 0);
    let clock = r.left.clock;
    let t = r.end.ticked(crc, clock);
    let rest = r.left.after_clock(r.end.tick_reads(clock));
    let d = t.draining(rest, 0);
    lemma_receiving_leaves_alone(m, crc, replies, 0);
    lemma_draining_leaves_alone(t, rest, 0);
    if d.left.io.len() < replies.io.len() {
        law_poll_leaves_alone(d.end.after_handing(room), crc, room, d.left);
    }
}

proof fn lemma_receiving_leaves_alone<C: Crc, E>(
    m: Endpoint,
    crc: C,
    replies: Replies<E>,
    seen: usize,
)
    ensures
        m.receiving(crc, replies, seen).end.staging == m.staging,
        m.receiving(crc, replies, seen).end.max_resend == m.max_resend,
    decreases replies.io.len(), m.inbox.len(),
{
    if m.wire_full() || seen == usize::MAX || m.oversized() {
    } else if m.frame_ready() {
        let msg = m.first_message(crc);
        let m1 = m.without_first();
        let reads = m1.reads_clock(msg);
        let now = if reads {
            replies.clock[0]
        } else {
            crate::time::Instant::of_millis(0)
        };
        let rest = if reads {
            replies.after_clock(1)
        } else {
            replies
        };
        lemma_receiving_leaves_alone(
            m1.on_message(crc, msg, now),
            crc,
            rest,
            (seen + 1) as usize,
        );
    } else if replies.io.len() > 0 {
        if let LowerEvent::Read { got: Poll::Ready(Ok(bytes)), .. } = replies.io[0] {
            let next = Endpoint { inbox: m.inbox + bytes, ..m };
            lemma_receiving_leaves_alone(next, crc, replies.after_io(), seen);
        }
    }
}

pub proof fn lemma_draining_leaves_alone<E>(m: Endpoint, replies: Replies<E>, sent: nat)
    ensures
        m.draining(replies, sent).end == (Endpoint {
            wire: m.draining(replies, sent).end.wire,
            ..m
        }),
        m.draining(replies, sent).left.clock == replies.clock,
    decreases replies.io.len(),
{
    if m.wire.len() > 0 && replies.io.len() > 0 {
        if let LowerEvent::Write { offered, taken: Poll::Ready(Ok(n)) } = replies.io[0] {
            lemma_draining_leaves_alone(m.wrote(n as nat), replies.after_io(), sent + n as nat);
        }
    }
}

/// The lower layer is flushed once all is sent and acknowledged, and not before; that
/// is the last call, and its reply is what flushing reports. So flushing succeeds only
/// where the lower layer was flushed. Where it was not, flushing is pending because
/// something is still under way, or reports what went wrong.
pub proof fn law_flushing_reports<C: Crc, E>(m: Endpoint, crc: C, replies: Replies<E>)
    ensures
        m.flushing(crc, replies).out matches Some(result) ==> {
            let run = m.flushing(crc, replies);
            let n = made(replies.io, run.left.io);
            &&& n >= 0
            &&& run.left.io == replies.io.skip(n)
            &&& forall|i: int|
                0 <= i < n - 1 ==> !((#[trigger] replies.io[i]) is Flush) && fault(
                    replies.io[i],
                ) is None
            &&& if n > 0 && replies.io[n - 1] is Flush {
                &&& at_rest(run.end)
                &&& match replies.io[n - 1]->flushed {
                    Poll::Pending => result is Pending,
                    Poll::Ready(Ok(_)) => succeeded(result),
                    Poll::Ready(Err(e)) => result == Poll::<Result<(), ArqError<E>>>::Ready(
                        Err(ArqError::Io(e)),
                    ),
                }
            } else {
                &&& !succeeded(result)
                &&& (result is Pending ==> !at_rest(run.end))
                &&& (n > 0 && fault(replies.io[n - 1]) is Some ==> result == Poll::<
                    Result<(), ArqError<E>>,
                >::Ready(Err(fault(replies.io[n - 1])->0)))
                &&& match result {
                    Poll::Ready(Err(ArqError::Io(e))) => n > 0 && fault(replies.io[n - 1]) == Some(
                        ArqError::Io(e),
                    ),
                    Poll::Ready(Err(ArqError::Closed)) => n > 0 && fault(replies.io[n - 1])
                        == Some(ArqError::<E>::Closed),
                    _ => true,
                }
            }
            &&& (m.outgoing.len() < 4 ==> run.end.staging.len() == 0)
            &&& (at_rest(m) ==> run.end == m && n == 1)
        },
{
    let run = m.flushing(crc, replies);
    if run.out is Some {
        let m1 = m.pushing_out();
        assert(replies.io.skip(0) =~= replies.io);
        if !m1.quiescent() {
            let p = m1.polled(crc, 0, replies);
            law_poll_reports(m1, crc, 0, replies);
            law_poll_leaves_alone(m1, crc, 0, replies);
            crate::laws::law_polled_bytes(m1, crc, 0, replies);
            if run.left.io != p.left.io {
                let k = made(replies.io, p.left.io);
                assert(p.left.io[0] == replies.io[k]);
                assert(p.left.io.skip(1) =~= replies.io.skip(k + 1));
            }
        }
    }
}

/// Flushing drives a poll unless all is at rest once what was staged is queued. Where
/// that poll fails, flushing fails with the same error, whichever it is; where flushing
/// fails without having flushed the lower layer, that poll failed.
pub proof fn law_flushing_fails_as_the_poll<C: Crc, E>(
    m: Endpoint,
    crc: C,
    replies: Replies<E>,
    e: ArqError<E>,
)
    requires
        !at_rest(m.pushing_out()),
        m.flushing(crc, replies).out is Some,
    ensures
        ({
            let run = m.flushing(crc, replies);
            let n = made(replies.io, run.left.io);
            let poll = m.pushing_out().polled(crc, 0, replies);
            let failed = Poll::<Result<(), ArqError<E>>>::Ready(Err(e));
            &&& poll.out is Some
            &&& run.end == poll.end
            &&& poll.out->0.result == failed ==> run.out == Some(failed) && run.left == poll.left
            &&& run.out == Some(failed) && !(n > 0 && replies.io[n - 1] is Flush)
                ==> poll.out->0.result == failed
        }),
{
    let p = m.pushing_out().polled(crc, 0, replies);
    law_poll_reports(m.pushing_out(), crc, 0, replies);
    if p.out is Some {
        let k = made(replies.io, p.left.io);
        if p.left.io.len() > 0 {
            assert(p.left.io[0] == replies.io[k]);
        }
    }
}

} // verus!
