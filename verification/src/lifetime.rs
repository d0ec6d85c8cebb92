//! What holds of one end over all that it ever does.

use crate::crc::Crc;
use crate::endpoint::{Endpoint, Replies, State};
use crate::frame::{MSG_TYPE_ACK, MSG_TYPE_DAT, MSG_TYPE_RYN, MSG_TYPE_SYN};
use crate::lower::LowerEvent;
use crate::steps::Step;
use vstd::prelude::*;

verus! {

/// The state before step `i`.
pub open spec fn before<C: Crc>(m: Endpoint, crc: C, steps: Seq<Step>, i: int) -> Endpoint {
    m.walked(crc, steps.take(i))
}

/// Step `i` sends a payload for the first time.
pub open spec fn sends_new<C: Crc>(m: Endpoint, crc: C, steps: Seq<Step>, i: int) -> bool {
    steps[i] is Ticked && before(m, crc, steps, i).can_send()
}

/// Step `i` handles an intact frame of type `ty`.
pub open spec fn handles<C: Crc>(m: Endpoint, crc: C, steps: Seq<Step>, i: int, ty: u8) -> bool {
    let msg = before(m, crc, steps, i).first_message(crc);
    steps[i] is Handled && msg.intact && msg.ty == ty
}

/// Step `i` is the end of the payload in flight: it is acknowledged under its own
/// id, it is given up, or the peer starts over.
pub open spec fn ends_flight<C: Crc>(m: Endpoint, crc: C, steps: Seq<Step>, i: int) -> bool {
    let m1 = before(m, crc, steps, i);
    &&& m1.state is AwaitingAck
    &&& {
        ||| handles(m, crc, steps, i, MSG_TYPE_ACK) && m1.awaits(m1.first_message(crc).id)
        ||| steps[i] matches Step::Ticked { clock } && m1.gives_up(clock)
        ||| handles(m, crc, steps, i, MSG_TYPE_SYN)
    }
}

/// The id of payload number `k` of an end, counted from 0.
pub open spec fn id_of_payload(k: nat) -> u8 {
    (k % 256) as u8
}

proof fn lemma_next_id(k: nat)
    ensures
        crate::endpoint::next_id(id_of_payload(k)) == id_of_payload(k + 1),
{
}

/// Ids count up from 0, modulo 256, over all that one end ever sends: without a gap
/// and without starting again. The payload in flight is the last one sent, under its
/// id; and payloads are sent in the order in which they were queued.
pub proof fn law_ids_count_up<C: Crc>(max_resend: usize, crc: C, steps: Seq<Step>)
    requires
        Endpoint::fresh(max_resend).can_walk(crc, steps),
    ensures
        ({
            let t = crate::steps::tally(Endpoint::fresh(max_resend), crc, steps);
            let end = Endpoint::fresh(max_resend).walked(crc, steps);
            &&& end.next_pkt_id == id_of_payload(t.sent.len())
            &&& end.state matches State::AwaitingAck { pending_id, .. } ==> t.sent.len() > 0
                && pending_id == id_of_payload((t.sent.len() - 1) as nat) && end.pending == Some(
                t.sent.last(),
            )
            &&& t.entered == t.sent + end.outgoing
        }),
    decreases steps.len(),
{
    let m = Endpoint::fresh(max_resend);
    crate::laws::law_fresh_is_valid(max_resend);
    crate::streams::law_steps_keep_order(m, crc, steps);
    let t = crate::steps::tally(m, crc, steps);
    assert(m.outgoing + t.entered =~= t.entered);
    if steps.len() > 0 {
        let fewer = steps.drop_last();
        let mid = m.walked(crc, fewer);
        law_ids_count_up(max_resend, crc, fewer);
        crate::steps::law_steps_keep_valid(m, crc, fewer);
        lemma_next_id(crate::steps::tally(m, crc, fewer).sent.len());
        lemma_step_ids(mid, crc, steps.last());
    }
}

/// What a step does to the ids and the payload in flight.
proof fn lemma_step_ids<C: Crc>(m: Endpoint, crc: C, step: Step)
    requires
        m.valid(),
        m.can(step),
    ensures
        ({
            let next = m.stepped(crc, step);
            let sent = crate::steps::step_tally(m, crc, step).sent;
            if step is Ticked && m.can_send() {
                &&& sent == seq![m.outgoing.first()]
                &&& next.next_pkt_id == crate::endpoint::next_id(m.next_pkt_id)
                &&& next.awaits(m.next_pkt_id)
                &&& next.pending == Some(m.outgoing.first())
            } else {
                &&& sent == Seq::<Seq<u8>>::empty()
                &&& next.next_pkt_id == m.next_pkt_id
                &&& next.state matches State::AwaitingAck { pending_id, .. } ==> m.awaits(
                    pending_id,
                ) && next.pending == m.pending
            }
        }),
{
}

/// Every DAT frame that is queued is the payload that is sent then for the first
/// time, under the next id, or else the payload in flight once more, under its own.
pub proof fn law_data_frames<C: Crc>(m: Endpoint, crc: C, step: Step, i: int)
    requires
        m.valid(),
        m.can(step),
        0 <= i < crate::steps::step_tally(m, crc, step).queued.len(),
        crate::steps::step_tally(m, crc, step).queued[i][0] == MSG_TYPE_DAT,
    ensures
        ({
            let f = crate::steps::step_tally(m, crc, step).queued[i];
            if step is Ticked && m.can_send() {
                f == crate::frame::dat_bytes(crc, m.next_pkt_id, m.outgoing.first())
            } else {
                &&& m.state matches State::AwaitingAck { pending_id, .. }
                &&& m.pending matches Some(payload)
                &&& f == crate::frame::dat_bytes(crc, pending_id, payload)
            }
        }),
{
}

/// The same walk up to a step, taken from a longer one.
proof fn lemma_before<C: Crc>(m: Endpoint, crc: C, steps: Seq<Step>, i: int)
    requires
        0 <= i < steps.len(),
    ensures
        before(m, crc, steps, i + 1) == before(m, crc, steps, i).stepped(crc, steps[i]),
        m.can_walk(crc, steps) ==> m.can_walk(crc, steps.take(i)) && before(
            m,
            crc,
            steps,
            i,
        ).can(steps[i]),
    decreases steps.len() - i,
{
    let longer = steps.take(i + 1);
    assert(longer.drop_last() =~= steps.take(i));
    assert(longer.last() == steps[i]);
    let rest = steps.skip(i + 1);
    assert(longer + rest =~= steps);
    crate::steps::lemma_walks(m, crc, longer, rest);
}

/// Nothing is sent before a RYN has come: an end that is not syncing any more has
/// handled one.
pub proof fn law_nothing_sent_before_ryn<C: Crc>(
    max_resend: usize,
    crc: C,
    steps: Seq<Step>,
    i: int,
)
    requires
        Endpoint::fresh(max_resend).can_walk(crc, steps),
        0 <= i < steps.len(),
        sends_new(Endpoint::fresh(max_resend), crc, steps, i),
    ensures
        exists|j: int|
            0 <= j < i && #[trigger] handles(
                Endpoint::fresh(max_resend),
                crc,
                steps,
                j,
                MSG_TYPE_RYN,
            ),
{
    lemma_ryn_came(max_resend, crc, steps, i);
}

proof fn lemma_ryn_came<C: Crc>(max_resend: usize, crc: C, steps: Seq<Step>, i: int)
    requires
        0 <= i <= steps.len(),
        !(before(Endpoint::fresh(max_resend), crc, steps, i).state is Syncing),
    ensures
        exists|j: int|
            0 <= j < i && #[trigger] handles(
                Endpoint::fresh(max_resend),
                crc,
                steps,
                j,
                MSG_TYPE_RYN,
            ),
    decreases i,
{
    let m = Endpoint::fresh(max_resend);
    if i > 0 {
        lemma_before(m, crc, steps, i - 1);
        if before(m, crc, steps, i - 1).state is Syncing {
            assert(handles(m, crc, steps, i - 1, MSG_TYPE_RYN));
        } else {
            lemma_ryn_came(max_resend, crc, steps, i - 1);
        }
    }
}

/// One payload is in flight at a time: between two that are sent for the first time,
/// the first of them was acknowledged under its own id, was given up, or was dropped
/// because the peer started over.
pub proof fn law_one_payload_in_flight<C: Crc>(
    m: Endpoint,
    crc: C,
    steps: Seq<Step>,
    i: int,
    j: int,
)
    requires
        0 <= i < j < steps.len(),
        sends_new(m, crc, steps, i),
        sends_new(m, crc, steps, j),
    ensures
        exists|k: int| i < k < j && #[trigger] ends_flight(m, crc, steps, k),
{
    if !(exists|k: int| i < k < j && #[trigger] ends_flight(m, crc, steps, k)) {
        lemma_still_in_flight(m, crc, steps, i, j);
    }
}

proof fn lemma_still_in_flight<C: Crc>(
    m: Endpoint,
    crc: C,
    steps: Seq<Step>,
    i: int,
    j: int,
)
    requires
        0 <= i < j <= steps.len(),
        sends_new(m, crc, steps, i),
        forall|k: int| i < k < j ==> !#[trigger] ends_flight(m, crc, steps, k),
    ensures
        before(m, crc, steps, j).state is AwaitingAck,
    decreases j,
{
    lemma_before(m, crc, steps, j - 1);
    if j - 1 > i {
        lemma_still_in_flight(m, crc, steps, i, j - 1);
        assert(!ends_flight(m, crc, steps, j - 1));
    }
}

// ---- calls of the machine ----

/// A call of the machine, with the replies that the lower layer and the clock gave
/// during it.
#[verifier::reject_recursive_types(E)]
pub enum Call<E> {
    /// Polling or reading.
    Poll { room: nat, replies: Replies<E> },
    /// Writing.
    Write { data: Seq<u8>, replies: Replies<E> },
    /// Flushing.
    Flush { replies: Replies<E> },
}

impl<E> Call<E> {
    /// The replies given during the call.
    pub open spec fn replies(self) -> Replies<E> {
        match self {
            Call::Poll { replies, .. } => replies,
            Call::Write { replies, .. } => replies,
            Call::Flush { replies } => replies,
        }
    }
}

/// The replies are those to the calls that the machine makes, and no others.
pub open spec fn answered<C: Crc, E>(m: Endpoint, crc: C, call: Call<E>) -> bool {
    &&& crate::lower::honest(call.replies().io)
    &&& match call {
        Call::Poll { room, replies } => {
            let run = m.polled(crc, room, replies);
            run.out is Some && run.left.io.len() == 0
        },
        Call::Write { data, replies } => {
            let run = m.accepting(data).polled(crc, 0, replies);
            run.out is Some && run.left.io.len() == 0
        },
        Call::Flush { replies } => {
            let run = m.flushing(crc, replies);
            run.out is Some && run.left.io.len() == 0
        },
    }
}

/// The state that a call leaves.
pub open spec fn called<C: Crc, E>(m: Endpoint, crc: C, call: Call<E>) -> Endpoint {
    match call {
        Call::Poll { room, replies } => m.polled(crc, room, replies).end,
        Call::Write { data, replies } => m.accepting(data).polled(crc, 0, replies).end,
        Call::Flush { replies } => m.flushing(crc, replies).end,
    }
}

/// The steps of a call.
pub open spec fn call_steps<C: Crc, E>(m: Endpoint, crc: C, call: Call<E>) -> Seq<Step> {
    match call {
        Call::Poll { room, replies } => crate::steps::polling_steps(
            m,
            crc,
            room,
            replies,
        ),
        Call::Write { data, replies } => seq![Step::Accepted { data }]
            + crate::steps::polling_steps(m.accepting(data), crc, 0, replies),
        Call::Flush { replies } => seq![Step::PushedOut] + if m.pushing_out().quiescent() {
            Seq::empty()
        } else {
            crate::steps::polling_steps(m.pushing_out(), crc, 0, replies)
        },
    }
}

/// Calls, one after the other, each of them answered.
pub open spec fn all_answered<C: Crc, E>(m: Endpoint, crc: C, calls: Seq<Call<E>>) -> bool
    decreases calls.len(),
{
    calls.len() > 0 ==> all_answered(m, crc, calls.drop_last()) && answered(
        all_called(m, crc, calls.drop_last()),
        crc,
        calls.last(),
    )
}

/// The state that they leave.
pub open spec fn all_called<C: Crc, E>(m: Endpoint, crc: C, calls: Seq<Call<E>>) -> Endpoint
    decreases calls.len(),
{
    if calls.len() == 0 {
        m
    } else {
        called(all_called(m, crc, calls.drop_last()), crc, calls.last())
    }
}

/// Their steps.
pub open spec fn all_steps<C: Crc, E>(m: Endpoint, crc: C, calls: Seq<Call<E>>) -> Seq<Step>
    decreases calls.len(),
{
    if calls.len() == 0 {
        Seq::empty()
    } else {
        all_steps(m, crc, calls.drop_last()) + call_steps(
            all_called(m, crc, calls.drop_last()),
            crc,
            calls.last(),
        )
    }
}

/// A poll that used all its replies is a walk.
proof fn lemma_poll_call<C: Crc, E>(m: Endpoint, crc: C, room: nat, replies: Replies<E>)
    requires
        m.valid(),
        crate::lower::honest(replies.io),
        m.polled(crc, room, replies).out is Some,
    ensures
        ({
            let run = m.polled(crc, room, replies);
            let steps = crate::steps::polling_steps(m, crc, room, replies);
            let t = crate::steps::tally(m, crc, steps);
            &&& m.can_walk(crc, steps)
            &&& m.walked(crc, steps) == run.end
            &&& run.left.io.len() <= replies.io.len()
            &&& crate::streams::bytes_given(replies.io) == t.given
                + crate::streams::bytes_given(run.left.io)
            &&& crate::streams::bytes_taken(replies.io) == t.taken
                + crate::streams::bytes_taken(run.left.io)
        }),
{
    let run = m.polled(crc, room, replies);
    crate::streams::law_poll_is_steps(m, crc, room, replies);
    let used = crate::streams::used(replies.io, run.left.io);
    assert(used + run.left.io =~= replies.io);
    crate::streams::lemma_bytes_concat(used, run.left.io);
}

/// Calls of which none moved a byte.
proof fn lemma_no_bytes<E>(io: Seq<LowerEvent<E>>)
    requires
        io.len() == 0 || io.len() == 1 && io[0] is Flush,
    ensures
        crate::streams::bytes_given(io) == Seq::<u8>::empty(),
        crate::streams::bytes_taken(io) == Seq::<u8>::empty(),
{
    if io.len() == 1 {
        assert(io =~= seq![io[0]]);
        crate::streams::lemma_single_call(io[0]);
    }
}

/// A call is a walk, on which what the lower layer gave comes in and what it took
/// goes out.
pub proof fn law_call_is_steps<C: Crc, E>(m: Endpoint, crc: C, call: Call<E>)
    requires
        m.valid(),
        answered(m, crc, call),
    ensures
        ({
            let steps = call_steps(m, crc, call);
            let t = crate::steps::tally(m, crc, steps);
            &&& m.can_walk(crc, steps)
            &&& m.walked(crc, steps) == called(m, crc, call)
            &&& t.given == crate::streams::bytes_given(call.replies().io)
            &&& t.taken == crate::streams::bytes_taken(call.replies().io)
        }),
{
    let steps = call_steps(m, crc, call);
    let t = crate::steps::tally(m, crc, steps);
    let replies = call.replies();
    match call {
        Call::Poll { room, .. } => {
            lemma_poll_call(m, crc, room, replies);
            lemma_no_bytes(m.polled(crc, room, replies).left.io);
        },
        Call::Write { data, .. } => {
            let m1 = m.accepting(data);
            crate::laws::law_upper_layer_keeps_valid(m, 0, data);
            lemma_poll_call(m1, crc, 0, replies);
            lemma_no_bytes(m1.polled(crc, 0, replies).left.io);
            crate::steps::lemma_first_step(
                m,
                crc,
                Step::Accepted { data },
                crate::steps::polling_steps(m1, crc, 0, replies),
            );
        },
        Call::Flush { .. } => {
            let m1 = m.pushing_out();
            crate::laws::law_upper_layer_keeps_valid(m, 0, Seq::empty());
            if m1.quiescent() {
                crate::steps::lemma_first_step(m, crc, Step::PushedOut, Seq::empty());
                lemma_no_bytes(replies.io);
            } else {
                lemma_poll_call(m1, crc, 0, replies);
                lemma_no_bytes(m1.polled(crc, 0, replies).left.io);
                crate::steps::lemma_first_step(
                    m,
                    crc,
                    Step::PushedOut,
                    crate::steps::polling_steps(m1, crc, 0, replies),
                );
            }
        },
    }
    assert(t.given =~= crate::streams::bytes_given(replies.io));
    assert(t.taken =~= crate::streams::bytes_taken(replies.io));
}

/// All that one end ever does is a walk: any calls of the machine, one after the
/// other, lead where their steps lead, so that what holds of every walk holds of
/// every machine from the day it was made.
pub proof fn law_calls_are_steps<C: Crc, E>(m: Endpoint, crc: C, calls: Seq<Call<E>>)
    requires
        m.valid(),
        all_answered(m, crc, calls),
    ensures
        m.can_walk(crc, all_steps(m, crc, calls)),
        m.walked(crc, all_steps(m, crc, calls)) == all_called(m, crc, calls),
    decreases calls.len(),
{
    if calls.len() > 0 {
        let fewer = calls.drop_last();
        let mid = all_called(m, crc, fewer);
        law_calls_are_steps(m, crc, fewer);
        crate::steps::law_steps_keep_valid(m, crc, all_steps(m, crc, fewer));
        law_call_is_steps(mid, crc, calls.last());
        crate::steps::lemma_walks(
            m,
            crc,
            all_steps(m, crc, fewer),
            call_steps(mid, crc, calls.last()),
        );
    }
}

} // verus!
