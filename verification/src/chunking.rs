//! How the lower layer cuts up what it gives makes no difference.

use crate::crc::Crc;
use crate::endpoint::{Endpoint, Replies};
use crate::error::ArqError;
use crate::time::Instant;
use vstd::prelude::*;

verus! {

/// How many whole frames a run of bytes starts with.
pub open spec fn whole_frames(b: Seq<u8>) -> nat
    decreases b.len(),
{
    if b.len() < 5 || b.len() < crate::frame::announced_len(b) {
        0
    } else {
        1 + whole_frames(b.skip(crate::frame::announced_len(b)))
    }
}

/// What is left of a run of bytes behind the whole frames that it starts with.
pub open spec fn tail(b: Seq<u8>) -> Seq<u8>
    decreases b.len(),
{
    if b.len() < 5 || b.len() < crate::frame::announced_len(b) {
        b
    } else {
        tail(b.skip(crate::frame::announced_len(b)))
    }
}

/// What an end is once it has handled the whole frames of its inbox, however long
/// that is, until the wire is full; with the readings of the clock that are left, and
/// the number of frames handled, `seen` of them before and no more than can be counted.
pub open spec fn digested<C: Crc>(m: Endpoint, crc: C, clock: Seq<Instant>, seen: usize) -> (
    Endpoint,
    Seq<Instant>,
    usize,
)
    decreases m.inbox.len(),
{
    if m.wire_full() || seen == usize::MAX || !m.frame_ready() {
        (m, clock, seen)
    } else {
        let msg = m.first_message(crc);
        let m1 = m.without_first();
        let seen = (seen + 1) as usize;
        if m1.reads_clock(msg) {
            digested(m1.on_message(crc, msg, clock[0]), crc, clock.skip(1), seen)
        } else {
            digested(m1.on_message(crc, msg, Instant::of_millis(0)), crc, clock, seen)
        }
    }
}

/// With room left on the wire, what is digested are all whole frames.
proof fn lemma_digests_all<C: Crc>(m: Endpoint, crc: C, clock: Seq<Instant>, seen: usize)
    requires
        !digested(m, crc, clock, seen).0.wire_full(),
        digested(m, crc, clock, seen).2 < usize::MAX,
    ensures
        digested(m, crc, clock, seen).0.inbox == tail(m.inbox),
        digested(m, crc, clock, seen).2 == seen + whole_frames(m.inbox),
    decreases m.inbox.len(),
{
    if !(m.wire_full() || seen == usize::MAX || !m.frame_ready()) {
        let msg = m.first_message(crc);
        let m1 = m.without_first();
        let reads = m1.reads_clock(msg);
        let now = if reads {
            clock[0]
        } else {
            Instant::of_millis(0)
        };
        let rest = if reads {
            clock.skip(1)
        } else {
            clock
        };
        crate::laws::lemma_inbox_apart(m1, crc, msg, now, Seq::empty());
        lemma_digests_all(m1.on_message(crc, msg, now), crc, rest, (seen + 1) as usize);
    }
}

/// The stream did not break off in a frame that is too long.
pub open spec fn well_framed<E>(out: Option<Result<usize, ArqError<E>>>) -> bool {
    out is Some && !(out matches Some(Err(ArqError::Framing)))
}

/// Receiving has digested the bytes that were in the inbox and those that were given.
proof fn lemma_receiving_digests<C: Crc, E>(
    m: Endpoint,
    crc: C,
    replies: Replies<E>,
    seen: usize,
)
    requires
        m.valid(),
        crate::lower::honest(replies.io),
        well_framed(m.receiving(crc, replies, seen).out),
    ensures
        ({
            let run = m.receiving(crc, replies, seen);
            let given = crate::streams::bytes_given(
                crate::streams::used(replies.io, run.left.io),
            );
            let end = digested(
                Endpoint { inbox: m.inbox + given, ..m },
                crc,
                replies.clock,
                seen,
            );
            &&& run.end == end.0
            &&& run.left.clock == end.1
            &&& run.out matches Some(Ok(k)) ==> k == end.2
        }),
    decreases replies.io.len(), m.inbox.len(),
{
    let run = m.receiving(crc, replies, seen);
    let given = crate::streams::bytes_given(crate::streams::used(replies.io, run.left.io));
    let stream = m.inbox + given;
    let n = crate::frame::announced_len(m.inbox);
    if m.wire_full() || seen == usize::MAX {
        assert(crate::streams::used(replies.io, replies.io) =~= Seq::empty());
        assert(stream =~= m.inbox);
    } else if m.frame_ready() {
        let msg = m.first_message(crc);
        let m1 = m.without_first();
        let reads = m1.reads_clock(msg);
        let now = if reads {
            replies.clock[0]
        } else {
            Instant::of_millis(0)
        };
        let rest = if reads {
            replies.after_clock(1)
        } else {
            replies
        };
        let m2 = m1.on_message(crc, msg, now);
        crate::laws::law_messages_keep_valid(m1, crc, msg, now);
        crate::laws::lemma_inbox_apart(m1, crc, msg, now, stream.skip(n));
        lemma_receiving_digests(m2, crc, rest, (seen + 1) as usize);
        let whole = Endpoint { inbox: stream, ..m };
        assert(stream.take(n) =~= m.inbox.take(n));
        assert(stream.skip(n) =~= m.inbox.skip(n) + given);
        assert(whole.first_message(crc) == msg);
        assert(whole.without_first() == Endpoint { inbox: stream.skip(n), ..m1 });
    } else {
        let event = replies.io[0];
        let rest = replies.after_io();
        crate::streams::lemma_honest_rest(replies.io, 1);
        crate::streams::lemma_single_call(event);
        assert(crate::streams::used(rest.io, rest.io) =~= Seq::empty());
        crate::streams::lemma_used_first(replies.io, rest.io);
        assert(event.honest());
        let bytes = crate::streams::bytes_given(seq![event]);
        if bytes.len() > 0 {
            let next = Endpoint { inbox: m.inbox + bytes, ..m };
            lemma_receiving_digests(next, crc, rest, seen);
            let parts = crate::streams::law_receiving_in_order(next, crc, rest, seen);
            crate::streams::lemma_used_first(replies.io, run.left.io);
            let more = crate::streams::bytes_given(crate::streams::used(rest.io, run.left.io));
            assert((m.inbox + bytes) + more =~= stream);
        } else {
            assert(given =~= Seq::<u8>::empty());
            assert(stream =~= m.inbox);
        }
    }
}

/// What receiving does depends on the bytes that the lower layer gives and not on
/// how it cuts them up: from the same state, with the same readings of the clock,
/// two runs that were given the same bytes end in the same state and have handled the
/// same number of frames, unless they met a frame that is too long. With room left on
/// the wire, that number is the number of whole frames in the bytes that were in the
/// inbox and those given, and what is behind them is left in the inbox.
pub proof fn law_receiving_depends_on_bytes_alone<C: Crc, E>(
    m: Endpoint,
    crc: C,
    one: Replies<E>,
    two: Replies<E>,
)
    requires
        m.valid(),
        crate::lower::honest(one.io),
        crate::lower::honest(two.io),
        one.clock == two.clock,
        well_framed(m.receiving(crc, one, 0).out),
        well_framed(m.receiving(crc, two, 0).out),
        crate::streams::bytes_given(
            crate::streams::used(one.io, m.receiving(crc, one, 0).left.io),
        ) == crate::streams::bytes_given(
            crate::streams::used(two.io, m.receiving(crc, two, 0).left.io),
        ),
    ensures
        ({
            let a = m.receiving(crc, one, 0);
            let b = m.receiving(crc, two, 0);
            let stream = m.inbox + crate::streams::bytes_given(
                crate::streams::used(one.io, a.left.io),
            );
            &&& a.end == b.end
            &&& a.left.clock == b.left.clock
            &&& a.out matches Some(Ok(_)) ==> (b.out matches Some(Ok(_)) ==> a.out == b.out)
            &&& a.out matches Some(Ok(k)) ==> (!a.end.wire_full() && k < usize::MAX ==> k
                == whole_frames(stream) && a.end.inbox == tail(stream))
        }),
{
    let a = m.receiving(crc, one, 0);
    let given = crate::streams::bytes_given(crate::streams::used(one.io, a.left.io));
    lemma_receiving_digests(m, crc, one, 0);
    lemma_receiving_digests(m, crc, two, 0);
    let whole = Endpoint { inbox: m.inbox + given, ..m };
    let end = digested(whole, crc, one.clock, 0);
    if !end.0.wire_full() && end.2 < usize::MAX {
        lemma_digests_all(whole, crc, one.clock, 0);
    }
}

} // verus!
