//! How a run of the machine is followed reply by reply.
//!
//! While a loop of the machine runs, the replies still to come are not known.
//! Its invariant is therefore that, whatever they will be, the run from the
//! start over all replies is the run from the present state over those to come.

use crate::crc::Crc;
use crate::endpoint::{Endpoint, Polled, Replies};
use crate::error::ArqError;
use crate::frame::MAX_FRAME;
use crate::lower::LowerEvent;
use crate::metrics::RecvMetrics;
use crate::time::Instant;
use core::task::Poll;
use vstd::prelude::*;

verus! {

pub broadcast proof fn lemma_none_and<E>(more: Replies<E>)
    ensures
        #[trigger] Replies::none().and(more) == more,
{
    assert(Replies::none().and(more) =~= more);
}

pub broadcast proof fn lemma_and_none<E>(before: Replies<E>)
    ensures
        #[trigger] before.and(Replies::none()) == before,
{
    assert(before.and(Replies::none()) =~= before);
}

pub broadcast proof fn lemma_and_silence<E>(before: Replies<E>)
    ensures
        #[trigger] before.and(Replies::readings(Seq::empty())) == before,
{
    assert(before.and(Replies::readings(Seq::empty())) =~= before);
}

pub broadcast proof fn lemma_and_and<E>(a: Replies<E>, b: Replies<E>, c: Replies<E>)
    ensures
        #[trigger] a.and(b).and(c) == a.and(b.and(c)),
{
    assert(a.and(b).and(c) =~= a.and(b.and(c)));
}

pub broadcast proof fn lemma_join_readings<E>(a: Seq<Instant>, b: Seq<Instant>)
    ensures
        #[trigger] Replies::<E>::readings(a).and(Replies::readings(b)) == Replies::<E>::readings(a + b),
{
    assert(Replies::<E>::readings(a).and(Replies::readings(b)) =~= Replies::<E>::readings(a + b));
}

pub broadcast proof fn lemma_since<E>(before: Replies<E>, more: Replies<E>)
    ensures
        (#[trigger] before.and(more)).since(before) == more,
{
    assert(before.and(more).since(before) =~= more);
}

pub broadcast proof fn lemma_honest_and<E>(a: Replies<E>, b: Replies<E>)
    requires
        crate::lower::honest(a.io),
        crate::lower::honest(b.io),
    ensures
        crate::lower::honest((#[trigger] a.and(b)).io),
{
    let io = a.and(b).io;
    assert forall|i: int| 0 <= i < io.len() implies (#[trigger] io[i]).honest() by {
        if i < a.io.len() {
            assert(io[i] == a.io[i]);
        } else {
            assert(io[i] == b.io[i - a.io.len()]);
        }
    }
}

pub broadcast group group_replies {
    lemma_honest_and,
    lemma_none_and,
    lemma_and_none,
    lemma_and_silence,
    lemma_and_and,
    lemma_join_readings,
    lemma_since,
}

pub proof fn lemma_call_and<E>(event: LowerEvent<E>, more: Replies<E>)
    ensures
        Replies::call(event).and(more).io.len() == 1 + more.io.len(),
        Replies::call(event).and(more).io[0] == event,
        Replies::call(event).and(more).clock == more.clock,
        Replies::call(event).and(more).after_io() == more,
{
    assert(Replies::call(event).and(more).after_io() =~= more);
    assert(Replies::call(event).and(more).clock =~= more.clock);
}

pub proof fn lemma_readings_and<E>(clock: Seq<Instant>, more: Replies<E>)
    ensures
        Replies::readings(clock).and(more).io == more.io,
        Replies::readings(clock).and(more).clock == clock + more.clock,
        Replies::readings(clock).and(more).after_clock(clock.len()) == more,
{
    assert(Replies::readings(clock).and(more).io =~= more.io);
    assert(Replies::readings(clock).and(more).after_clock(clock.len()) =~= more);
}

// ---- receiving ----

/// Receiving from `start` has used `used` and is now at `now`, with `seen`
/// frames handled.
#[verifier::opaque]
pub open spec fn receiving_at<C: Crc, E>(
    start: Endpoint,
    crc: C,
    used: Replies<E>,
    now: Endpoint,
    seen: usize,
) -> bool {
    forall|more: Replies<E>|
        #[trigger] start.receiving(crc, used.and(more), 0) == now.receiving(crc, more, seen)
}

/// Receiving from `start` has used `used` and ended at `end` with `out`.
#[verifier::opaque]
pub open spec fn received<C: Crc, E>(
    start: Endpoint,
    crc: C,
    used: Replies<E>,
    end: Endpoint,
    out: Result<usize, ArqError<E>>,
) -> bool {
    forall|more: Replies<E>|
        #[trigger] start.receiving(crc, used.and(more), 0) == end.done(more, out)
}

pub proof fn lemma_receiving_starts<C: Crc, E>(start: Endpoint, crc: C)
    ensures
        receiving_at(start, crc, Replies::<E>::none(), start, 0),
{
    reveal(receiving_at);
    assert forall|more: Replies<E>| #[trigger]
        start.receiving(crc, Replies::<E>::none().and(more), 0) == start.receiving(
        crc,
        more,
        0,
    ) by {
        lemma_none_and(more);
    }
}

/// A whole frame is handled.
pub proof fn lemma_receiving_frame<C: Crc, E>(
    start: Endpoint,
    crc: C,
    used: Replies<E>,
    now: Endpoint,
    seen: usize,
    clock: Seq<Instant>,
    next: Endpoint,
)
    requires
        receiving_at(start, crc, used, now, seen),
        !now.wire_full(),
        seen < usize::MAX,
        !now.oversized(),
        now.frame_ready(),
        clock.len() == if now.without_first().reads_clock(now.first_message(crc)) {
            1nat
        } else {
            0nat
        },
        clock.len() == 0 ==> next == now.without_first().on_message(
            crc,
            now.first_message(crc),
            Instant::of_millis(0),
        ),
        clock.len() == 1 ==> next == now.without_first().on_message(
            crc,
            now.first_message(crc),
            clock[0],
        ),
    ensures
        receiving_at(start, crc, used.and(Replies::readings(clock)), next, (seen + 1) as usize),
{
    reveal(receiving_at);
    let then = (seen + 1) as usize;
    assert forall|more: Replies<E>| #[trigger]
        start.receiving(crc, used.and(Replies::readings(clock)).and(more), 0) == next.receiving(
        crc,
        more,
        then,
    ) by {
        let rest = Replies::readings(clock).and(more);
        lemma_and_and(used, Replies::readings(clock), more);
        lemma_readings_and(clock, more);
        assert(start.receiving(crc, used.and(rest), 0) == now.receiving(crc, rest, seen));
        if clock.len() == 0 {
            assert(rest =~= more);
        }
    }
}

/// Bytes are read.
pub proof fn lemma_receiving_bytes<C: Crc, E>(
    start: Endpoint,
    crc: C,
    used: Replies<E>,
    now: Endpoint,
    seen: usize,
    event: LowerEvent<E>,
    bytes: Seq<u8>,
)
    requires
        receiving_at(start, crc, used, now, seen),
        !now.wire_full(),
        seen < usize::MAX,
        !now.oversized(),
        !now.frame_ready(),
        now.inbox.len() <= MAX_FRAME,
        event == (LowerEvent::Read {
            room: (MAX_FRAME - now.inbox.len()) as nat,
            got: Poll::Ready(Ok::<Seq<u8>, E>(bytes)),
        }),
        bytes.len() > 0,
    ensures
        receiving_at(
            start,
            crc,
            used.and(Replies::call(event)),
            Endpoint { inbox: now.inbox + bytes, ..now },
            seen,
        ),
{
    reveal(receiving_at);
    let next = Endpoint { inbox: now.inbox + bytes, ..now };
    assert forall|more: Replies<E>| #[trigger]
        start.receiving(crc, used.and(Replies::call(event)).and(more), 0) == next.receiving(
        crc,
        more,
        seen,
    ) by {
        let rest = Replies::call(event).and(more);
        lemma_and_and(used, Replies::call(event), more);
        lemma_call_and(event, more);
        assert(start.receiving(crc, used.and(rest), 0) == now.receiving(crc, rest, seen));
    }
}

/// The wire is full, or the inbox holds no frame at all.
pub proof fn lemma_received_early<C: Crc, E>(
    start: Endpoint,
    crc: C,
    used: Replies<E>,
    now: Endpoint,
    seen: usize,
    end: Endpoint,
    out: Result<usize, ArqError<E>>,
)
    requires
        receiving_at(start, crc, used, now, seen),
        now.wire_full() || seen == usize::MAX || now.oversized(),
        now.wire_full() || seen == usize::MAX ==> end == now && out == Ok::<usize, ArqError<E>>(
            seen,
        ),
        !now.wire_full() && seen < usize::MAX ==> end == (Endpoint {
            recv: RecvMetrics { framing: crate::metrics::counted(now.recv.framing), ..now.recv },
            inbox: Seq::empty(),
            ..now
        }) && out == Err::<usize, ArqError<E>>(ArqError::Framing),
    ensures
        received(start, crc, used, end, out),
{
    reveal(receiving_at);
    reveal(received);
    assert forall|more: Replies<E>| #[trigger]
        start.receiving(crc, used.and(more), 0) == end.done(more, out) by {
        assert(start.receiving(crc, used.and(more), 0) == now.receiving(crc, more, seen));
    }
}

/// The lower layer has no bytes.
pub proof fn lemma_received<C: Crc, E>(
    start: Endpoint,
    crc: C,
    used: Replies<E>,
    now: Endpoint,
    seen: usize,
    event: LowerEvent<E>,
    got: Poll<Result<Seq<u8>, E>>,
    out: Result<usize, ArqError<E>>,
)
    requires
        receiving_at(start, crc, used, now, seen),
        !now.wire_full(),
        seen < usize::MAX,
        !now.oversized(),
        !now.frame_ready(),
        now.inbox.len() <= MAX_FRAME,
        event == (LowerEvent::Read { room: (MAX_FRAME - now.inbox.len()) as nat, got }),
        match got {
            Poll::Pending => out == Ok::<usize, ArqError<E>>(seen),
            Poll::Ready(Ok(bytes)) => bytes.len() == 0 && out == Err::<usize, ArqError<E>>(
                ArqError::Closed,
            ),
            Poll::Ready(Err(e)) => out == Err::<usize, ArqError<E>>(ArqError::Io(e)),
        },
    ensures
        received(start, crc, used.and(Replies::call(event)), now, out),
{
    reveal(receiving_at);
    reveal(received);
    assert forall|more: Replies<E>| #[trigger]
        start.receiving(crc, used.and(Replies::call(event)).and(more), 0) == now.done(more, out) by {
        let rest = Replies::call(event).and(more);
        lemma_and_and(used, Replies::call(event), more);
        lemma_call_and(event, more);
        assert(start.receiving(crc, used.and(rest), 0) == now.receiving(crc, rest, seen));
    }
}

// ---- draining ----

/// Draining from `start` has used `used` and is now at `now`, with `sent` bytes
/// written.
#[verifier::opaque]
pub open spec fn draining_at<E>(start: Endpoint, used: Replies<E>, now: Endpoint, sent: nat) -> bool {
    forall|more: Replies<E>|
        #[trigger] start.draining(used.and(more), 0) == now.draining(more, sent)
}

/// Draining from `start` has used `used` and ended at `end` with `out`.
#[verifier::opaque]
pub open spec fn drained<E>(
    start: Endpoint,
    used: Replies<E>,
    end: Endpoint,
    out: Result<nat, ArqError<E>>,
) -> bool {
    forall|more: Replies<E>| #[trigger] start.draining(used.and(more), 0) == end.done(more, out)
}

pub proof fn lemma_draining_starts<E>(start: Endpoint)
    ensures
        draining_at(start, Replies::<E>::none(), start, 0),
{
    reveal(draining_at);
    assert forall|more: Replies<E>| #[trigger]
        start.draining(Replies::<E>::none().and(more), 0) == start.draining(more, 0) by {
        lemma_none_and(more);
    }
}

/// A frame is taken whole.
pub proof fn lemma_draining_frame<E>(
    start: Endpoint,
    used: Replies<E>,
    now: Endpoint,
    sent: nat,
    event: LowerEvent<E>,
    n: usize,
)
    requires
        draining_at(start, used, now, sent),
        now.wire.len() > 0,
        n > 0,
        n >= now.wire.first().len(),
        event == (LowerEvent::Write {
            offered: now.wire.first(),
            taken: Poll::Ready(Ok::<usize, E>(n)),
        }),
    ensures
        draining_at(start, used.and(Replies::call(event)), now.wrote(n as nat), sent + n as nat),
{
    reveal(draining_at);
    assert forall|more: Replies<E>| #[trigger]
        start.draining(used.and(Replies::call(event)).and(more), 0) == now.wrote(n as nat).draining(
        more,
        sent + n as nat,
    ) by {
        let rest = Replies::call(event).and(more);
        lemma_and_and(used, Replies::call(event), more);
        lemma_call_and(event, more);
        assert(start.draining(used.and(rest), 0) == now.draining(rest, sent));
    }
}

/// Nothing is left to write.
pub proof fn lemma_drained_empty<E>(start: Endpoint, used: Replies<E>, now: Endpoint, sent: nat)
    requires
        draining_at(start, used, now, sent),
        now.wire.len() == 0,
    ensures
        drained(start, used, now, Ok::<nat, ArqError<E>>(sent)),
{
    reveal(draining_at);
    reveal(drained);
    assert forall|more: Replies<E>| #[trigger]
        start.draining(used.and(more), 0) == now.done(more, Ok::<nat, ArqError<E>>(sent)) by {
        assert(start.draining(used.and(more), 0) == now.draining(more, sent));
    }
}

/// The lower layer does not take a frame whole.
pub proof fn lemma_drained<E>(
    start: Endpoint,
    used: Replies<E>,
    now: Endpoint,
    sent: nat,
    event: LowerEvent<E>,
    taken: Poll<Result<usize, E>>,
    end: Endpoint,
    out: Result<nat, ArqError<E>>,
)
    requires
        draining_at(start, used, now, sent),
        now.wire.len() > 0,
        event == (LowerEvent::Write { offered: now.wire.first(), taken }),
        match taken {
            Poll::Pending => end == now && out == Ok::<nat, ArqError<E>>(sent),
            Poll::Ready(Err(e)) => end == now && out == Err::<nat, ArqError<E>>(ArqError::Io(e)),
            Poll::Ready(Ok(n)) => if n == 0 {
                end == now && out == Err::<nat, ArqError<E>>(ArqError::Closed)
            } else {
                &&& n < now.wire.first().len()
                &&& end == now.wrote(n as nat)
                &&& out == Ok::<nat, ArqError<E>>(sent + n as nat)
            },
        },
    ensures
        drained(start, used.and(Replies::call(event)), end, out),
{
    reveal(draining_at);
    reveal(drained);
    assert forall|more: Replies<E>| #[trigger]
        start.draining(used.and(Replies::call(event)).and(more), 0) == end.done(more, out) by {
        let rest = Replies::call(event).and(more);
        lemma_and_and(used, Replies::call(event), more);
        lemma_call_and(event, more);
        assert(start.draining(used.and(rest), 0) == now.draining(rest, sent));
    }
}

/// What has left the wire once sending has ended is what the lower layer took.
pub proof fn lemma_drained_in_order<E>(
    start: Endpoint,
    used: Replies<E>,
    end: Endpoint,
    out: Result<nat, ArqError<E>>,
)
    requires
        start.valid(),
        crate::lower::honest(used.io),
        drained(start, used, end, out),
    ensures
        end == (Endpoint { wire: end.wire, ..start }),
        crate::streams::on_wire(start) == crate::streams::bytes_taken(used.io)
            + crate::streams::on_wire(end),
        out matches Ok(n) ==> n == crate::streams::bytes_taken(used.io).len(),
{
    reveal(drained);
    lemma_and_none(used);
    assert(start.draining(used.and(Replies::none()), 0) == end.done(Replies::<E>::none(), out));
    crate::streams::law_draining_in_order(start, used, 0);
    assert(crate::streams::used(used.io, Seq::empty()) =~= used.io);
}

// ---- polling ----

/// Polling from `start` has used `used` and is now at `now`.
#[verifier::opaque]
pub open spec fn polling_at<C: Crc, E>(
    start: Endpoint,
    crc: C,
    room: nat,
    used: Replies<E>,
    now: Endpoint,
) -> bool {
    forall|more: Replies<E>|
        #[trigger] start.polled(crc, room, used.and(more)) == now.polled(crc, room, more)
}

/// Polling from `start` has used `used` and ended at `end` with `out`.
#[verifier::opaque]
pub open spec fn was_polled<C: Crc, E>(
    start: Endpoint,
    crc: C,
    room: nat,
    used: Replies<E>,
    end: Endpoint,
    out: Polled<E>,
) -> bool {
    forall|more: Replies<E>|
        #[trigger] start.polled(crc, room, used.and(more)) == end.done(more, out)
}

pub proof fn lemma_polling_starts<C: Crc, E>(start: Endpoint, crc: C, room: nat)
    ensures
        polling_at(start, crc, room, Replies::<E>::none(), start),
{
    reveal(polling_at);
    assert forall|more: Replies<E>| #[trigger]
        start.polled(crc, room, Replies::<E>::none().and(more)) == start.polled(
        crc,
        room,
        more,
    ) by {
        lemma_none_and(more);
    }
}

/// Receiving fails.
pub proof fn lemma_polled_recv_error<C: Crc, E>(
    start: Endpoint,
    crc: C,
    room: nat,
    used: Replies<E>,
    now: Endpoint,
    r: Replies<E>,
    m1: Endpoint,
    e: ArqError<E>,
)
    requires
        polling_at(start, crc, room, used, now),
        received(now, crc, r, m1, Err::<usize, ArqError<E>>(e)),
    ensures
        was_polled(
            start,
            crc,
            room,
            used.and(r),
            m1,
            Polled { result: Poll::Ready(Err(e)), bytes: Seq::empty() },
        ),
{
    reveal(polling_at);
    reveal(was_polled);
    reveal(received);
    let out = Polled { result: Poll::Ready(Err(e)), bytes: Seq::<u8>::empty() };
    assert forall|more: Replies<E>| #[trigger]
        start.polled(crc, room, used.and(r).and(more)) == m1.done(more, out) by {
        lemma_and_and(used, r, more);
        assert(start.polled(crc, room, used.and(r.and(more))) == now.polled(
            crc,
            room,
            r.and(more),
        ));
        assert(now.receiving(crc, r.and(more), 0) == m1.done(
            more,
            Err::<usize, ArqError<E>>(e),
        ));
    }
}

/// The replies of one pass.
pub open spec fn pass<E>(r: Replies<E>, clock: Seq<Instant>, d: Replies<E>) -> Replies<E> {
    r.and(Replies::readings(clock)).and(d)
}

/// The parts of a pass come apart in order.
proof fn lemma_pass<C: Crc, E>(
    now: Endpoint,
    crc: C,
    r: Replies<E>,
    m1: Endpoint,
    frames_in: usize,
    clock: Seq<Instant>,
    d: Replies<E>,
    m3: Endpoint,
    sent: Result<nat, ArqError<E>>,
    more: Replies<E>,
)
    requires
        received(now, crc, r, m1, Ok::<usize, ArqError<E>>(frames_in)),
        clock.len() == m1.tick_reads(clock),
        drained(m1.ticked(crc, clock), d, m3, sent),
    ensures
        ({
            let all = pass(r, clock, d).and(more);
            let run = now.receiving(crc, all, 0);
            &&& run == m1.done(Replies::readings(clock).and(d.and(more)), Ok::<usize, ArqError<E>>(frames_in))
            &&& m1.tick_reads(run.left.clock) == clock.len() <= run.left.clock.len()
            &&& m1.ticked(crc, run.left.clock) == m1.ticked(crc, clock)
            &&& m1.gives_up(run.left.clock) == m1.gives_up(clock)
            &&& m1.ticked(crc, clock).draining(run.left.after_clock(clock.len()), 0) == m3.done(
                more,
                sent,
            )
        }),
{
    reveal(received);
    reveal(drained);
    let rest = Replies::readings(clock).and(d.and(more));
    lemma_and_and(r.and(Replies::readings(clock)), d, more);
    lemma_and_and(r, Replies::readings(clock), d.and(more));
    lemma_readings_and(clock, d.and(more));
    assert(now.receiving(crc, r.and(rest), 0) == m1.done(rest, Ok::<usize, ArqError<E>>(frames_in)));
    if clock.len() > 0 {
        assert(rest.clock[0] == clock[0]);
    }
    if clock.len() > 1 {
        assert(rest.clock[1] == clock[1]);
    }
    if clock.len() == 0 {
        assert(m1.state is Idle && !m1.can_send());
    }
    assert(m1.ticked(crc, clock).draining(d.and(more), 0) == m3.done(more, sent));
}

/// Sending fails.
pub proof fn lemma_polled_drain_error<C: Crc, E>(
    start: Endpoint,
    crc: C,
    room: nat,
    used: Replies<E>,
    now: Endpoint,
    r: Replies<E>,
    m1: Endpoint,
    frames_in: usize,
    clock: Seq<Instant>,
    d: Replies<E>,
    m3: Endpoint,
    e: ArqError<E>,
)
    requires
        polling_at(start, crc, room, used, now),
        received(now, crc, r, m1, Ok::<usize, ArqError<E>>(frames_in)),
        clock.len() == m1.tick_reads(clock),
        drained(m1.ticked(crc, clock), d, m3, Err::<nat, ArqError<E>>(e)),
    ensures
        was_polled(
            start,
            crc,
            room,
            used.and(pass(r, clock, d)),
            m3,
            Polled { result: Poll::Ready(Err(e)), bytes: Seq::empty() },
        ),
{
    reveal(polling_at);
    reveal(was_polled);
    let out = Polled { result: Poll::Ready(Err(e)), bytes: Seq::<u8>::empty() };
    assert forall|more: Replies<E>| #[trigger]
        start.polled(crc, room, used.and(pass(r, clock, d)).and(more)) == m3.done(more, out) by {
        lemma_and_and(used, pass(r, clock, d), more);
        lemma_pass(now, crc, r, m1, frames_in, clock, d, m3, Err::<nat, ArqError<E>>(e), more);
        let all = pass(r, clock, d).and(more);
        assert(start.polled(crc, room, used.and(all)) == now.polled(crc, room, all));
    }
}

/// A pass is the last one.
pub proof fn lemma_polled<C: Crc, E>(
    start: Endpoint,
    crc: C,
    room: nat,
    used: Replies<E>,
    now: Endpoint,
    r: Replies<E>,
    m1: Endpoint,
    frames_in: usize,
    clock: Seq<Instant>,
    d: Replies<E>,
    m3: Endpoint,
    bytes_out: nat,
    result: Poll<Result<(), ArqError<E>>>,
)
    requires
        polling_at(start, crc, room, used, now),
        received(now, crc, r, m1, Ok::<usize, ArqError<E>>(frames_in)),
        clock.len() == m1.tick_reads(clock),
        drained(m1.ticked(crc, clock), d, m3, Ok::<nat, ArqError<E>>(bytes_out)),
        if m3.handed(room).len() > 0 {
            result == Poll::<Result<(), ArqError<E>>>::Ready(Ok(()))
        } else if m1.gives_up(clock) {
            result == Poll::<Result<(), ArqError<E>>>::Ready(Err(ArqError::Timeout))
        } else {
            &&& frames_in == 0 && bytes_out == 0 && !m3.after_handing(room).more_to_hand(room)
            &&& result is Pending
        },
    ensures
        was_polled(
            start,
            crc,
            room,
            used.and(pass(r, clock, d)),
            m3.after_handing(room),
            Polled { result, bytes: m3.handed(room) },
        ),
{
    reveal(polling_at);
    reveal(was_polled);
    let out = Polled { result, bytes: m3.handed(room) };
    assert forall|more: Replies<E>| #[trigger]
        start.polled(crc, room, used.and(pass(r, clock, d)).and(more)) == m3.after_handing(
        room,
    ).done(more, out) by {
        lemma_and_and(used, pass(r, clock, d), more);
        lemma_pass(
            now,
            crc,
            r,
            m1,
            frames_in,
            clock,
            d,
            m3,
            Ok::<nat, ArqError<E>>(bytes_out),
            more,
        );
        let all = pass(r, clock, d).and(more);
        assert(start.polled(crc, room, used.and(all)) == now.polled(crc, room, all));
    }
}

/// A pass is not the last one.
pub proof fn lemma_polling_goes_on<C: Crc, E>(
    start: Endpoint,
    crc: C,
    room: nat,
    used: Replies<E>,
    now: Endpoint,
    r: Replies<E>,
    m1: Endpoint,
    frames_in: usize,
    clock: Seq<Instant>,
    d: Replies<E>,
    m3: Endpoint,
    bytes_out: nat,
)
    requires
        polling_at(start, crc, room, used, now),
        received(now, crc, r, m1, Ok::<usize, ArqError<E>>(frames_in)),
        clock.len() == m1.tick_reads(clock),
        drained(m1.ticked(crc, clock), d, m3, Ok::<nat, ArqError<E>>(bytes_out)),
        m3.handed(room).len() == 0,
        !m1.gives_up(clock),
        frames_in > 0 || bytes_out > 0 || m3.after_handing(room).more_to_hand(room),
        r.io.len() + d.io.len() > 0,
    ensures
        polling_at(
            start,
            crc,
            room,
            used.and(pass(r, clock, d)),
            m3.after_handing(room),
        ),
{
    reveal(polling_at);
    let next = m3.after_handing(room);
    assert forall|more: Replies<E>| #[trigger]
        start.polled(crc, room, used.and(pass(r, clock, d)).and(more)) == next.polled(
        crc,
        room,
        more,
    ) by {
        lemma_and_and(used, pass(r, clock, d), more);
        lemma_pass(
            now,
            crc,
            r,
            m1,
            frames_in,
            clock,
            d,
            m3,
            Ok::<nat, ArqError<E>>(bytes_out),
            more,
        );
        let all = pass(r, clock, d).and(more);
        assert(start.polled(crc, room, used.and(all)) == now.polled(crc, room, all));
    }
}

/// A finished poll used exactly its own replies.
pub proof fn lemma_was_polled<C: Crc, E>(
    start: Endpoint,
    crc: C,
    room: nat,
    used: Replies<E>,
    end: Endpoint,
    out: Polled<E>,
)
    requires
        was_polled(start, crc, room, used, end, out),
    ensures
        start.polled(crc, room, used) == end.done(Replies::<E>::none(), out),
{
    reveal(was_polled);
    lemma_and_none(used);
    assert(start.polled(crc, room, used.and(Replies::none())) == end.done(Replies::<E>::none(), out));
}

/// A pass calls the lower layer at least once: receiving stops without a call only
/// where the wire is full, and then there is something to send.
pub proof fn lemma_pass_calls<C: Crc, E>(
    now: Endpoint,
    crc: C,
    r: Replies<E>,
    m1: Endpoint,
    frames_in: usize,
    clock: Seq<Instant>,
    d: Replies<E>,
    m3: Endpoint,
    bytes_out: nat,
)
    requires
        now.valid(),
        m1.valid(),
        crate::lower::honest(r.io),
        received(now, crc, r, m1, Ok::<usize, ArqError<E>>(frames_in)),
        drained(m1.ticked(crc, clock), d, m3, Ok::<nat, ArqError<E>>(bytes_out)),
    ensures
        r.io.len() + d.io.len() > 0,
{
    reveal(received);
    reveal(drained);
    let t = m1.ticked(crc, clock);
    lemma_and_none(r);
    lemma_and_none(d);
    assert(now.receiving(crc, r.and(Replies::none()), 0) == m1.done(
        Replies::<E>::none(),
        Ok::<usize, ArqError<E>>(frames_in),
    ));
    assert(t.draining(d.and(Replies::none()), 0) == m3.done(
        Replies::<E>::none(),
        Ok::<nat, ArqError<E>>(bytes_out),
    ));
    crate::progress::lemma_receiving_stops(now, crc, r, 0);
    crate::laws::law_time_keeps_valid(m1, crc, clock);
    crate::progress::lemma_draining_stops(t, d, 0);
}

/// A poll that has made more calls than can be counted goes on from where it is.
pub proof fn lemma_polls_on<C: Crc, E>(
    start: Endpoint,
    crc: C,
    room: nat,
    used: Replies<E>,
    now: Endpoint,
)
    requires
        polling_at(start, crc, room, used, now),
        used.io.len() > u64::MAX,
    ensures
        start.polls_on(crc, room, used, now),
{
    reveal(polling_at);
}

} // verus!
