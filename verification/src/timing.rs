//! When things happen, in terms of the readings of the clock.

use crate::crc::Crc;
use crate::duties::is_after;
use crate::endpoint::{Endpoint, Polled, Replies, State};
use crate::error::ArqError;
use crate::lower::LowerEvent;
use crate::steps::Step;
use crate::time::Instant;
use core::task::Poll;
use vstd::prelude::*;

verus! {

broadcast use crate::time::group_time;

/// What became of the times that `m` keeps: each is as it was, or was set anew from one
/// of the readings `clock`, a SYN 1000 and a deadline 50 milliseconds after it.
pub open spec fn timed(m: Endpoint, end: Endpoint, clock: Seq<Instant>) -> bool {
    &&& end.next_syn_at == m.next_syn_at || exists|j: int|
        0 <= j < clock.len() && is_after(end.next_syn_at, #[trigger] clock[j], 1000)
    &&& end.state matches State::AwaitingAck { deadline, .. } ==> {
        ||| m.state is AwaitingAck && m.state->deadline == deadline
        ||| exists|j: int| 0 <= j < clock.len() && is_after(deadline, #[trigger] clock[j], 50)
    }
}

/// The readings used of `clock`, of which `left` were not.
pub open spec fn read(clock: Seq<Instant>, left: Seq<Instant>) -> Seq<Instant> {
    clock.take(clock.len() - left.len())
}

/// `left` is what comes after the readings used.
pub open spec fn still_to_come(clock: Seq<Instant>, left: Seq<Instant>) -> bool {
    &&& left.len() <= clock.len()
    &&& left == clock.skip(clock.len() - left.len())
}

proof fn lemma_timed_on(
    m: Endpoint,
    mid: Endpoint,
    end: Endpoint,
    clock: Seq<Instant>,
    between: Seq<Instant>,
    left: Seq<Instant>,
)
    requires
        still_to_come(clock, between),
        still_to_come(between, left),
        timed(m, mid, read(clock, between)),
        timed(mid, end, read(between, left)),
    ensures
        still_to_come(clock, left),
        timed(m, end, read(clock, left)),
{
    let a = clock.len() - between.len();
    let all = read(clock, left);
    assert(left =~= clock.skip(clock.len() - left.len()));
    assert forall|j: int| 0 <= j < read(clock, between).len() implies #[trigger] read(
        clock,
        between,
    )[j] == all[j] by {}
    assert forall|j: int| 0 <= j < read(between, left).len() implies #[trigger] read(
        between,
        left,
    )[j] == all[j + a] by {}
}

proof fn lemma_nothing_read(m: Endpoint, clock: Seq<Instant>)
    ensures
        still_to_come(clock, clock),
        timed(m, m, read(clock, clock)),
{
    assert(clock.skip(0) =~= clock);
}

proof fn lemma_message_timed<C: Crc>(
    m: Endpoint,
    crc: C,
    msg: crate::frame::Message,
    clock: Seq<Instant>,
)
    requires
        m.reads_clock(msg) ==> clock.len() > 0,
    ensures
        m.reads_clock(msg) ==> still_to_come(clock, clock.skip(1)) && timed(
            m,
            m.on_message(crc, msg, clock[0]),
            read(clock, clock.skip(1)),
        ),
        !m.reads_clock(msg) ==> timed(
            m,
            m.on_message(crc, msg, Instant::of_millis(0)),
            read(clock, clock),
        ),
{
    if m.reads_clock(msg) {
        assert(read(clock, clock.skip(1))[0] == clock[0]);
    }
}

proof fn lemma_receiving_timed<C: Crc, E>(m: Endpoint, crc: C, replies: Replies<E>, seen: usize)
    requires
        m.receiving(crc, replies, seen).out is Some,
    ensures
        ({
            let run = m.receiving(crc, replies, seen);
            &&& still_to_come(replies.clock, run.left.clock)
            &&& timed(m, run.end, read(replies.clock, run.left.clock))
        }),
    decreases replies.io.len(), m.inbox.len(),
{
    let run = m.receiving(crc, replies, seen);
    let clock = replies.clock;
    lemma_nothing_read(m, clock);
    if m.wire_full() || seen == usize::MAX || m.oversized() {
    } else if m.frame_ready() {
        let msg = m.first_message(crc);
        let m1 = m.without_first();
        lemma_message_timed(m1, crc, msg, clock);
        if m1.reads_clock(msg) {
            let m2 = m1.on_message(crc, msg, clock[0]);
            lemma_receiving_timed(m2, crc, replies.after_clock(1), (seen + 1) as usize);
            lemma_timed_on(m, m2, run.end, clock, clock.skip(1), run.left.clock);
        } else {
            let m2 = m1.on_message(crc, msg, Instant::of_millis(0));
            lemma_receiving_timed(m2, crc, replies, (seen + 1) as usize);
            lemma_timed_on(m, m2, run.end, clock, clock, run.left.clock);
        }
    } else {
        if let LowerEvent::Read { got: Poll::Ready(Ok(bytes)), .. } = replies.io[0] {
            if bytes.len() > 0 {
                let next = Endpoint { inbox: m.inbox + bytes, ..m };
                lemma_receiving_timed(next, crc, replies.after_io(), seen);
            }
        }
    }
}

proof fn lemma_tick_timed<C: Crc>(m: Endpoint, crc: C, clock: Seq<Instant>)
    requires
        m.tick_reads(clock) <= clock.len(),
    ensures
        still_to_come(clock, clock.skip(m.tick_reads(clock) as int)),
        timed(m, m.ticked(crc, clock), read(clock, clock.skip(m.tick_reads(clock) as int))),
{
    let n = m.tick_reads(clock) as int;
    let used = read(clock, clock.skip(n));
    if n > 0 {
        assert(used[0] == clock[0]);
    }
    if n > 1 {
        assert(used[1] == clock[1]);
    }
}

/// One pass of a poll, up to where sending ends.
proof fn lemma_pass_timed<C: Crc, E>(m: Endpoint, crc: C, replies: Replies<E>)
    requires
        m.receiving(crc, replies, 0).out matches Some(Ok(_)),
        ({
            let r = m.receiving(crc, replies, 0);
            r.end.tick_reads(r.left.clock) <= r.left.clock.len()
        }),
    ensures
        ({
            let r = m.receiving(crc, replies, 0);
            let t = r.end.ticked(crc, r.left.clock);
            let left = r.left.clock.skip(r.end.tick_reads(r.left.clock) as int);
            &&& still_to_come(replies.clock, left)
            &&& timed(m, t, read(replies.clock, left))
        }),
{
    let r = m.receiving(crc, replies, 0);
    let clock = r.left.clock;
    lemma_receiving_timed(m, crc, replies, 0);
    lemma_tick_timed(r.end, crc, clock);
    lemma_timed_on(
        m,
        r.end,
        r.end.ticked(crc, clock),
        replies.clock,
        clock,
        clock.skip(r.end.tick_reads(clock) as int),
    );
}

/// A poll sets its times from the readings that the clock gave during it: whatever
/// deadline or SYN it leaves was there before, or is 50 or 1000 milliseconds after one
/// of them.
pub proof fn law_times_come_from_the_clock<C: Crc, E>(
    m: Endpoint,
    crc: C,
    room: nat,
    replies: Replies<E>,
)
    ensures
        m.polled(crc, room, replies).out is Some ==> {
            let run = m.polled(crc, room, replies);
            &&& still_to_come(replies.clock, run.left.clock)
            &&& timed(m, run.end, read(replies.clock, run.left.clock))
        },
    decreases replies.io.len(),
{
    let run = m.polled(crc, room, replies);
    if run.out is Some {
        let r = m.receiving(crc, replies, 0);
        lemma_receiving_timed(m, crc, replies, 0);
        if r.out matches Some(Ok(_)) {
            let clock = r.left.clock;
            let t = r.end.ticked(crc, clock);
            let rest = r.left.after_clock(r.end.tick_reads(clock));
            let d = t.draining(rest, 0);
            lemma_pass_timed(m, crc, replies);
            crate::reports::lemma_draining_leaves_alone(t, rest, 0);
            let next = d.end.after_handing(room);
            if run == next.polled(crc, room, d.left) && d.left.io.len() < replies.io.len() {
                law_times_come_from_the_clock(next, crc, room, d.left);
                lemma_timed_on(m, next, run.end, replies.clock, d.left.clock, run.left.clock);
            }
        }
    }
}

/// Nothing is due at `now`: no SYN while syncing, no payload while idle, and while one
/// is in flight no retransmission; unless the wire is full, which puts off sending, or
/// the end of time is reached.
pub open spec fn nothing_due(m: Endpoint, now: Instant) -> bool {
    match m.state {
        State::Syncing => now.millis() < m.next_syn_at.millis() || m.next_syn_at.millis()
            == u64::MAX,
        State::AwaitingAck { deadline, .. } => now.millis() < deadline.millis()
            || deadline.millis() == u64::MAX || m.wire.len() >= 3,
        State::Idle => m.outgoing.len() == 0 || m.wire.len() >= 3,
    }
}

/// After a tick that gives nothing up, nothing is due.
proof fn lemma_tick_leaves_nothing_due<C: Crc>(m: Endpoint, crc: C, clock: Seq<Instant>)
    requires
        m.valid(),
        !m.gives_up(clock),
    ensures
        ({
            let n = m.tick_reads(clock) as int;
            &&& n > 0 ==> nothing_due(m.ticked(crc, clock), clock[n - 1])
            &&& n == 0 ==> m.state is Idle && m.ticked(crc, clock) == m && (m.outgoing.len() == 0
                || m.wire.len() >= 3)
        }),
{
}

/// A poll that is pending has done all that was due at the last reading of the clock.
pub proof fn law_pending_leaves_nothing_due<C: Crc, E>(
    m: Endpoint,
    crc: C,
    room: nat,
    replies: Replies<E>,
)
    requires
        m.valid(),
        crate::lower::honest(replies.io),
    ensures
        m.polled(crc, room, replies).out matches Some(out) ==> (out.result is Pending ==> {
            let run = m.polled(crc, room, replies);
            let used = read(replies.clock, run.left.clock);
            if used.len() > 0 {
                nothing_due(run.end, used.last())
            } else {
                run.end.state is Idle && (run.end.outgoing.len() == 0 || run.end.wire.len() >= 3)
            }
        }),
    decreases replies.io.len(),
{
    let run = m.polled(crc, room, replies);
    if run.out is Some && run.out->0.result is Pending {
        let r = m.receiving(crc, replies, 0);
        let clock = r.left.clock;
        let t = r.end.ticked(crc, clock);
        let rest = r.left.after_clock(r.end.tick_reads(clock));
        let d = t.draining(rest, 0);
        let next = d.end.after_handing(room);
        lemma_receiving_timed(m, crc, replies, 0);
        let parts = crate::streams::law_receiving_in_order(m, crc, replies, 0);
        lemma_pass_timed(m, crc, replies);
        crate::laws::law_time_keeps_valid(r.end, crc, clock);
        crate::reports::lemma_draining_leaves_alone(t, rest, 0);
        crate::streams::lemma_honest_rest(replies.io, replies.io.len() - r.left.io.len());
        crate::streams::law_draining_in_order(t, rest, 0);
        if run == next.polled(crc, room, d.left) && d.left.io.len() < replies.io.len() {
            crate::streams::lemma_honest_rest(rest.io, rest.io.len() - d.left.io.len());
            crate::laws::law_upper_layer_keeps_valid(d.end, room, Seq::empty());
            law_times_come_from_the_clock(next, crc, room, d.left);
            law_pending_leaves_nothing_due(next, crc, room, d.left);
            lemma_last_reading(replies.clock, d.left.clock, run.left.clock);
        } else {
            lemma_tick_leaves_nothing_due(r.end, crc, clock);
            lemma_nothing_sent(t, rest);
            let used = read(replies.clock, run.left.clock);
            let n = r.end.tick_reads(clock) as int;
            if n > 0 {
                assert(used.last() == clock[n - 1]);
            } else if used.len() > 0 {
                assert(run.end.state is Idle);
            }
        }
    }
}

/// The last reading of two portions.
proof fn lemma_last_reading(
    clock: Seq<Instant>,
    between: Seq<Instant>,
    left: Seq<Instant>,
)
    requires
        still_to_come(clock, between),
        still_to_come(between, left),
    ensures
        read(between, left).len() > 0 ==> read(clock, left).len() > 0 && read(clock, left).last()
            == read(between, left).last(),
{
    if read(between, left).len() > 0 {
        let n = clock.len() - left.len() - 1;
        assert(clock[n] == between[n - (clock.len() - between.len())]);
    }
}

/// Where sending gets nothing out, the wire is as it was.
proof fn lemma_nothing_sent<E>(m: Endpoint, replies: Replies<E>)
    requires
        m.valid(),
    ensures
        m.draining(replies, 0).out matches Some(Ok(n)) && n == 0 ==> m.draining(replies, 0).end
            == m,
{
    if m.wire.len() > 0 && replies.io.len() > 0 {
        if let LowerEvent::Write { offered, taken: Poll::Ready(Ok(n)) } = replies.io[0] {
            if offered == m.wire.first() && n > 0 {
                assert(m.wire.first() == m.wire[0]);
                crate::laws::law_writing_keeps_valid(m, n as nat);
                crate::progress::lemma_draining_stops(
                    m.wrote(n as nat),
                    replies.after_io(),
                    n as nat,
                );
            }
        }
    }
}

// ---- giving up ----

/// At the first of the readings `clock` the payload in flight is overdue, and was sent
/// again as often as allowed.
pub open spec fn lapsed(m: Endpoint, clock: Seq<Instant>) -> bool {
    m.state matches State::AwaitingAck { attempts, deadline, .. } && clock[0].millis()
        >= deadline.millis() && attempts >= m.max_resend
}

/// How many payloads lapse on a walk.
pub open spec fn lapses<C: Crc>(m: Endpoint, crc: C, steps: Seq<Step>) -> nat
    decreases steps.len(),
{
    if steps.len() == 0 {
        0
    } else {
        let now = m.walked(crc, steps.drop_last());
        lapses(m, crc, steps.drop_last()) + match steps.last() {
            Step::Ticked { clock } => if lapsed(now, clock) {
                1nat
            } else {
                0
            },
            _ => 0,
        }
    }
}

/// Two walks are one.
proof fn lemma_lapses<C: Crc>(m: Endpoint, crc: C, a: Seq<Step>, b: Seq<Step>)
    ensures
        lapses(m, crc, a + b) == lapses(m, crc, a) + lapses(m.walked(crc, a), crc, b),
    decreases b.len(),
{
    if b.len() == 0 {
        assert(a + b =~= a);
    } else {
        let fewer = b.drop_last();
        lemma_lapses(m, crc, a, fewer);
        crate::steps::lemma_walks(m, crc, a, fewer);
        assert((a + b).drop_last() =~= a + fewer);
        assert((a + b).last() == b.last());
    }
}

/// Without a look at the clock nothing lapses.
proof fn lemma_no_lapse<C: Crc>(m: Endpoint, crc: C, steps: Seq<Step>)
    requires
        forall|i: int| 0 <= i < steps.len() ==> !((#[trigger] steps[i]) is Ticked),
    ensures
        lapses(m, crc, steps) == 0,
    decreases steps.len(),
{
    if steps.len() > 0 {
        let fewer = steps.drop_last();
        assert forall|i: int| 0 <= i < fewer.len() implies !((#[trigger] fewer[i]) is Ticked) by {
            assert(fewer[i] == steps[i]);
        }
        lemma_no_lapse(m, crc, fewer);
        assert(!(steps[steps.len() - 1] is Ticked));
    }
}

proof fn lemma_receiving_is_timeless<C: Crc, E>(
    m: Endpoint,
    crc: C,
    replies: Replies<E>,
    seen: usize,
)
    ensures
        ({
            let steps = crate::steps::receiving_steps(m, crc, replies, seen);
            forall|i: int| 0 <= i < steps.len() ==> !((#[trigger] steps[i]) is Ticked)
        }),
    decreases replies.io.len(), m.inbox.len(),
{
    if m.wire_full() || seen == usize::MAX || m.oversized() {
    } else if m.frame_ready() {
        let reads = m.without_first().reads_clock(m.first_message(crc));
        let step = Step::Handled {
            now: if reads {
                replies.clock[0]
            } else {
                Instant::of_millis(0)
            },
        };
        let rest = if reads {
            replies.after_clock(1)
        } else {
            replies
        };
        lemma_receiving_is_timeless(m.stepped(crc, step), crc, rest, (seen + 1) as usize);
    } else if replies.io.len() > 0 {
        if let LowerEvent::Read { got: Poll::Ready(Ok(bytes)), .. } = replies.io[0] {
            let step = Step::Given { bytes };
            lemma_receiving_is_timeless(m.stepped(crc, step), crc, replies.after_io(), seen);
        }
    }
}

proof fn lemma_draining_is_timeless<E>(m: Endpoint, replies: Replies<E>)
    ensures
        ({
            let steps = crate::steps::draining_steps(m, replies);
            forall|i: int| 0 <= i < steps.len() ==> !((#[trigger] steps[i]) is Ticked)
        }),
    decreases replies.io.len(),
{
    if m.wire.len() > 0 && replies.io.len() > 0 {
        if let LowerEvent::Write { taken: Poll::Ready(Ok(n)), .. } = replies.io[0] {
            lemma_draining_is_timeless(m.wrote(n as nat), replies.after_io());
        }
    }
}

/// What lapses in the pass of a poll, lapses at its one look at the clock.
proof fn lemma_pass_lapses<C: Crc, E>(m: Endpoint, crc: C, room: nat, replies: Replies<E>)
    requires
        m.valid(),
        crate::lower::honest(replies.io),
        m.receiving(crc, replies, 0).out is Some,
    ensures
        ({
            let r = m.receiving(crc, replies, 0);
            let clock = r.left.clock;
            let t = r.end.ticked(crc, clock);
            let rest = r.left.after_clock(r.end.tick_reads(clock));
            let first = crate::steps::receiving_steps(m, crc, replies, 0);
            let drained = first + seq![Step::Ticked { clock }]
                + crate::steps::draining_steps(t, rest);
            let pass = drained + seq![Step::Handed { room }];
            let once = if lapsed(r.end, clock) {
                1nat
            } else {
                0
            };
            &&& lapses(m, crc, first) == 0
            &&& lapses(m, crc, drained) == once
            &&& lapses(m, crc, pass) == once
        }),
{
    let r = m.receiving(crc, replies, 0);
    let clock = r.left.clock;
    let t = r.end.ticked(crc, clock);
    let rest = r.left.after_clock(r.end.tick_reads(clock));
    let first = crate::steps::receiving_steps(m, crc, replies, 0);
    let tick = seq![Step::Ticked { clock }];
    let sends = crate::steps::draining_steps(t, rest);
    let hands = seq![Step::Handed { room }];
    crate::streams::lemma_receiving_is_steps(m, crc, replies, 0);
    lemma_receiving_is_timeless(m, crc, replies, 0);
    lemma_draining_is_timeless(t, rest);
    lemma_no_lapse(m, crc, first);
    lemma_no_lapse(m.walked(crc, first + tick), crc, sends);
    lemma_no_lapse(m.walked(crc, first + tick + sends), crc, hands);
    assert((first + tick).drop_last() =~= first);
    assert((first + tick).last() == tick[0]);
    lemma_lapses(m, crc, first + tick, sends);
    lemma_lapses(m, crc, first + tick + sends, hands);
}

/// The poll goes on after its first pass.
spec fn goes_on<C: Crc, E>(m: Endpoint, crc: C, room: nat, replies: Replies<E>) -> bool {
    let r = m.receiving(crc, replies, 0);
    let clock = r.left.clock;
    let d = r.end.ticked(crc, clock).draining(
        r.left.after_clock(r.end.tick_reads(clock)),
        0,
    );
    let next = d.end.after_handing(room);
    match (r.out, d.out) {
        (Some(Ok(frames_in)), Some(Ok(bytes_out))) => !(d.end.handed(room).len() > 0
            || r.end.gives_up(clock) || (frames_in == 0 && bytes_out == 0 && !next.more_to_hand(
            room,
        )) || d.left.io.len() >= replies.io.len()),
        _ => false,
    }
}

/// Where the first pass of a poll ends, and the replies that it left.
spec fn after_pass<C: Crc, E>(m: Endpoint, crc: C, room: nat, replies: Replies<E>) -> (
    Endpoint,
    Replies<E>,
) {
    let r = m.receiving(crc, replies, 0);
    let clock = r.left.clock;
    let d = r.end.ticked(crc, clock).draining(
        r.left.after_clock(r.end.tick_reads(clock)),
        0,
    );
    (d.end.after_handing(room), d.left)
}

proof fn lemma_goes_on<C: Crc, E>(m: Endpoint, crc: C, room: nat, replies: Replies<E>)
    requires
        goes_on(m, crc, room, replies),
        m.polled(crc, room, replies).out is Some,
    ensures
        ({
            let (next, left) = after_pass(m, crc, room, replies);
            let run = next.polled(crc, room, left);
            &&& m.polled(crc, room, replies) == run
            &&& run.left.io.len() <= left.io.len()
        }),
{
    let (next, left) = after_pass(m, crc, room, replies);
    crate::reports::law_poll_reports(next, crc, room, left);
}

/// The last call is the same, whether counted from the start or from later on.
proof fn lemma_told_later<E>(
    io: Seq<LowerEvent<E>>,
    between: Seq<LowerEvent<E>>,
    left: Seq<LowerEvent<E>>,
)
    requires
        left.len() <= between.len() <= io.len(),
        between == io.skip(io.len() - between.len()),
    ensures
        left.len() < between.len() ==> between[between.len() - left.len() - 1] == io[io.len()
            - left.len() - 1],
{
}

/// Where a poll goes on, what lapses lapses later.
proof fn lemma_lapses_later<C: Crc, E>(m: Endpoint, crc: C, room: nat, replies: Replies<E>)
    requires
        m.valid(),
        crate::lower::honest(replies.io),
        goes_on(m, crc, room, replies),
    ensures
        ({
            let (next, left) = after_pass(m, crc, room, replies);
            &&& next.valid()
            &&& crate::lower::honest(left.io)
            &&& left.io.len() < replies.io.len()
            &&& left.io == replies.io.skip(replies.io.len() - left.io.len())
            &&& lapses(m, crc, crate::steps::polling_steps(m, crc, room, replies)) == lapses(
                next,
                crc,
                crate::steps::polling_steps(next, crc, room, left),
            )
        }),
{
    let r = m.receiving(crc, replies, 0);
    let clock = r.left.clock;
    let t = r.end.ticked(crc, clock);
    let rest = r.left.after_clock(r.end.tick_reads(clock));
    let d = t.draining(rest, 0);
    let first = crate::steps::receiving_steps(m, crc, replies, 0);
    let tick = Step::Ticked { clock };
    let sends = crate::steps::draining_steps(t, rest);
    let hand = Step::Handed { room };
    let parts = crate::streams::law_receiving_in_order(m, crc, replies, 0);
    crate::streams::lemma_receiving_is_steps(m, crc, replies, 0);
    crate::streams::lemma_honest_rest(replies.io, replies.io.len() - r.left.io.len());
    crate::laws::law_time_keeps_valid(r.end, crc, clock);
    crate::streams::law_draining_in_order(t, rest, 0);
    crate::streams::lemma_draining_is_steps(t, crc, rest, 0);
    crate::streams::lemma_honest_rest(rest.io, rest.io.len() - d.left.io.len());
    crate::laws::law_upper_layer_keeps_valid(d.end, room, Seq::empty());
    crate::steps::lemma_one_step(r.end, crc, tick);
    crate::steps::lemma_one_step(d.end, crc, hand);
    crate::steps::lemma_walks(m, crc, first, seq![tick]);
    crate::steps::lemma_walks(m, crc, first + seq![tick], sends);
    crate::steps::lemma_walks(m, crc, first + seq![tick] + sends, seq![hand]);
    lemma_pass_lapses(m, crc, room, replies);
    let next = d.end.after_handing(room);
    lemma_lapses(
        m,
        crc,
        first + seq![tick] + sends + seq![hand],
        crate::steps::polling_steps(next, crc, room, d.left),
    );
    assert(d.left.io =~= replies.io.skip(replies.io.len() - d.left.io.len()));
}

/// What a poll that made the first `n` of the calls `io` reports, given how many
/// payloads lapsed during it.
pub open spec fn lapse_reported<E>(
    lapsed: nat,
    end: Endpoint,
    io: Seq<LowerEvent<E>>,
    n: int,
    out: Polled<E>,
) -> bool {
    let late = out.result == Poll::<Result<(), ArqError<E>>>::Ready(Err(ArqError::Timeout));
    &&& lapsed <= 1
    &&& late ==> lapsed == 1
    &&& lapsed == 1 ==> {
        &&& end.state is Idle && end.pending is None
        &&& late || crate::reports::succeeded(out.result) || n > 0 && crate::reports::fault(
            io[n - 1],
        ) is Some
    }
}

/// The first pass, where it is the only one.
proof fn lemma_last_pass_lapses<C: Crc, E>(m: Endpoint, crc: C, room: nat, replies: Replies<E>)
    requires
        m.valid(),
        crate::lower::honest(replies.io),
        !goes_on(m, crc, room, replies),
    ensures
        m.polled(crc, room, replies).out matches Some(out) ==> lapse_reported(
            lapses(m, crc, crate::steps::polling_steps(m, crc, room, replies)),
            m.polled(crc, room, replies).end,
            replies.io,
            crate::reports::made(replies.io, m.polled(crc, room, replies).left.io),
            out,
        ),
{
    let run = m.polled(crc, room, replies);
    if run.out is Some {
        let r = m.receiving(crc, replies, 0);
        let clock = r.left.clock;
        let t = r.end.ticked(crc, clock);
        crate::reports::lemma_receiving_calls(m, crc, replies, 0);
        if let Some(Ok(_)) = r.out {
            crate::reports::lemma_pass_calls(m, crc, replies);
        }
        lemma_pass_lapses(m, crc, room, replies);
        crate::reports::lemma_draining_leaves_alone(
            t,
            r.left.after_clock(r.end.tick_reads(clock)),
            0,
        );
    }
}

/// A payload that lapses ends the poll, and the poll reports it as `Timeout`; unless it
/// has bytes to report, or the lower layer fails it at the same time. `Timeout` is
/// reported of nothing else.
pub proof fn law_lapse_is_reported<C: Crc, E>(
    m: Endpoint,
    crc: C,
    room: nat,
    replies: Replies<E>,
)
    requires
        m.valid(),
        crate::lower::honest(replies.io),
    ensures
        m.polled(crc, room, replies).out matches Some(out) ==> lapse_reported(
            lapses(m, crc, crate::steps::polling_steps(m, crc, room, replies)),
            m.polled(crc, room, replies).end,
            replies.io,
            crate::reports::made(replies.io, m.polled(crc, room, replies).left.io),
            out,
        ),
    decreases replies.io.len(),
{
    if m.polled(crc, room, replies).out is Some {
        if goes_on(m, crc, room, replies) {
            let (next, left) = after_pass(m, crc, room, replies);
            lemma_goes_on(m, crc, room, replies);
            lemma_lapses_later(m, crc, room, replies);
            law_lapse_is_reported(next, crc, room, left);
            lemma_told_later(replies.io, left.io, next.polled(crc, room, left).left.io);
        } else {
            lemma_last_pass_lapses(m, crc, room, replies);
        }
    }
}

// ---- over a lifetime ----

/// The latest of the readings from which a SYN can have been put off.
pub open spec fn latest(steps: Seq<Step>) -> int
    decreases steps.len(),
{
    if steps.len() == 0 {
        0
    } else {
        let before = latest(steps.drop_last());
        match steps.last() {
            Step::Ticked { clock } => if clock[1].millis() > before {
                clock[1].millis() as int
            } else {
                before
            },
            _ => before,
        }
    }
}

/// Whatever happens to an end from the day it was made, its next SYN is never more than
/// 1000 milliseconds after the latest reading of the clock. So an end that is syncing,
/// for whatever reason, and looks at the clock 1000 milliseconds later, sends a SYN if
/// the wire has room.
pub proof fn law_syn_is_never_far_off<C: Crc>(
    max_resend: usize,
    crc: C,
    steps: Seq<Step>,
    clock: Seq<Instant>,
)
    ensures
        ({
            let m = Endpoint::fresh(max_resend).walked(crc, steps);
            &&& m.next_syn_at.millis() <= latest(steps) + 1000
            &&& m.state is Syncing && m.wire.len() < 3 && clock[0].millis() >= latest(steps)
                + 1000 ==> m.ticked(crc, clock).wire == m.wire.push(
                crate::frame::ctl_bytes(crc, 3, m.next_pkt_id),
            )
        }),
    decreases steps.len(),
{
    if steps.len() > 0 {
        law_syn_is_never_far_off(max_resend, crc, steps.drop_last(), clock);
        let m = Endpoint::fresh(max_resend).walked(crc, steps.drop_last());
        let step = steps.last();
        if let Step::Handled { now } = step {
            crate::duties::law_messages_leave_alone(
                m.without_first(),
                crc,
                m.first_message(crc),
                now,
            );
        }
    }
}

} // verus!
