//! What holds of one end of a link, whatever happens to it.

use crate::crc::Crc;
use crate::endpoint::{Endpoint, Replies, State, ACK_TIMEOUT_MILLIS, PAYLOAD_RING, TX_FIFO};
use crate::frame::{
    Message, MAX_PAYLOAD, MSG_TYPE_ACK, MSG_TYPE_DAT, MSG_TYPE_NAK, MSG_TYPE_RYN, MSG_TYPE_SYN,
};
use crate::metrics::{RecvMetrics, SendMetrics};
use crate::time::Instant;
use core::task::Poll;
use vstd::prelude::*;

verus! {

broadcast use crate::time::group_time;

// ---- the invariant ----

/// A link on which nothing has happened is valid.
pub proof fn law_fresh_is_valid(max_resend: usize)
    ensures
        Endpoint::fresh(max_resend).valid(),
{
}

/// Whatever message comes in, a link stays valid.
pub proof fn law_messages_keep_valid<C: Crc>(m: Endpoint, crc: C, msg: Message, now: Instant)
    requires
        m.valid(),
        msg.payload.len() <= MAX_PAYLOAD,
    ensures
        m.on_message(crc, msg, now).valid(),
{
}

/// Whatever the clock says, a link stays valid.
pub proof fn law_time_keeps_valid<C: Crc>(m: Endpoint, crc: C, clock: Seq<Instant>)
    requires
        m.valid(),
    ensures
        m.ticked(crc, clock).valid(),
{
}

/// However much of the first frame in line the lower layer takes, a link stays
/// valid.
pub proof fn law_writing_keeps_valid(m: Endpoint, n: nat)
    requires
        m.valid(),
        m.wire.len() > 0,
    ensures
        m.wrote(n).valid(),
{
}

/// Whatever the upper layer reads, writes or flushes, a link stays valid.
pub proof fn law_upper_layer_keeps_valid(m: Endpoint, room: nat, data: Seq<u8>)
    requires
        m.valid(),
    ensures
        m.after_handing(room).valid(),
        m.accepting(data).valid(),
        m.pushing_out().valid(),
{
    let all = m.staged_with(data);
    let k = m.filled(data);
    let whole = all.len() / 251;
    assert(251 * whole <= all.len() < 251 * (whole + 1));
    let next = m.accepting(data);
    assert forall|i: int| 0 <= i < next.outgoing.len() implies (#[trigger] next.outgoing[i]).len()
        <= MAX_PAYLOAD by {
        if i >= m.outgoing.len() {
            let j = i - m.outgoing.len();
            assert(next.outgoing[i] == all.subrange(251 * j, 251 * (j + 1)));
        }
    }
}

// ---- sending ----

/// Ids are given out without a gap, and every payload taken from the queue is
/// sent: either nothing is taken and the next id stays, or the oldest payload is
/// queued for the wire under the next id, awaits its first acknowledgement, and
/// the id is used up.
pub proof fn law_ids_without_gap<C: Crc>(m: Endpoint, crc: C, clock: Seq<Instant>)
    ensures
        ({
            let t = m.ticked(crc, clock);
            if m.can_send() {
                let payload = m.outgoing.first();
                &&& t.outgoing == m.outgoing.drop_first()
                &&& t.next_pkt_id == crate::endpoint::next_id(m.next_pkt_id)
                &&& t.pending == Some(payload)
                &&& t.wire == m.wire.push(crate::frame::dat_bytes(crc, m.next_pkt_id, payload))
                &&& t.state == (State::AwaitingAck {
                    pending_id: m.next_pkt_id,
                    attempts: 0,
                    deadline: clock[0].later(ACK_TIMEOUT_MILLIS),
                })
            } else {
                t.outgoing == m.outgoing && t.next_pkt_id == m.next_pkt_id
            }
        }),
{
}

/// No message uses up an id or takes a payload from the queue.
pub proof fn law_messages_send_nothing_new<C: Crc>(
    m: Endpoint,
    crc: C,
    msg: Message,
    now: Instant,
)
    ensures
        m.on_message(crc, msg, now).outgoing == m.outgoing,
        m.on_message(crc, msg, now).next_pkt_id == m.next_pkt_id,
        m.on_message(crc, msg, now).staging == m.staging,
{
}

/// A payload is sent again under its own id: the retransmitted frame is, byte
/// for byte, the frame that was sent first, whatever went over the wire in
/// between.
pub proof fn law_retransmission_is_same_frame<C: Crc>(
    m: Endpoint,
    crc: C,
    clock: Seq<Instant>,
    wire: Seq<Seq<u8>>,
    now: Instant,
)
    requires
        m.valid(),
        m.can_send(),
        wire.len() < TX_FIFO,
    ensures
        ({
            let sent = m.ticked(crc, clock);
            let later = Endpoint { wire, ..sent };
            let again = later.resent(crc, now);
            &&& again.wire == wire.push(sent.wire.last())
            &&& again.pending == sent.pending
            &&& again.awaits(m.next_pkt_id)
        }),
{
}

/// With no room on the wire a retransmission is put off: no attempt is used up
/// and nothing else changes, and once there is room it takes place.
pub proof fn law_retransmission_put_off<C: Crc>(
    m: Endpoint,
    crc: C,
    clock: Seq<Instant>,
    wire: Seq<Seq<u8>>,
)
    requires
        m.valid(),
        m.state matches State::AwaitingAck { attempts, deadline, .. } && attempts < m.max_resend
            && clock[0].millis() >= deadline.millis(),
        wire.len() < TX_FIFO,
    ensures
        m.wire_full() ==> m.ticked(crc, clock) == m,
        (Endpoint { wire, ..m }).ticked(crc, clock).wire.len() == wire.len() + 1,
{
}

/// While an acknowledgement is awaited, time does one of these things and no
/// other: before the deadline nothing; from then on one more attempt, as long as
/// fewer than `max_resend` were made; after those the payload is given up, which
/// is counted as a loss and leaves the link idle.
pub proof fn law_attempts_are_limited<C: Crc>(m: Endpoint, crc: C, clock: Seq<Instant>)
    requires
        m.valid(),
        m.state is AwaitingAck,
        !m.wire_full(),
    ensures
        m.state matches State::AwaitingAck { pending_id, attempts, deadline } ==> {
            let t = m.ticked(crc, clock);
            if clock[0].millis() < deadline.millis() {
                t == m && !m.gives_up(clock)
            } else if attempts < m.max_resend {
                &&& !m.gives_up(clock)
                &&& t.state == (State::AwaitingAck {
                    pending_id,
                    attempts: (attempts + 1) as usize,
                    deadline: clock[1].later(ACK_TIMEOUT_MILLIS),
                })
                &&& t.pending == m.pending
                &&& t.send.retrans == crate::metrics::counted(m.send.retrans)
                &&& t.send.lost == m.send.lost
            } else {
                &&& m.gives_up(clock)
                &&& t.state is Idle
                &&& t.pending is None
                &&& t.send.lost == crate::metrics::counted(m.send.lost)
                &&& t.wire == m.wire
            }
        },
{
}

/// A matching ACK completes the payload in flight; any other ACK, and a NAK for
/// any other id, changes nothing.
pub proof fn law_acknowledgements<C: Crc>(m: Endpoint, crc: C, msg: Message, now: Instant)
    requires
        msg.intact,
        msg.ty == MSG_TYPE_ACK || msg.ty == MSG_TYPE_NAK,
    ensures
        !m.awaits(msg.id) ==> m.on_message(crc, msg, now) == m,
        m.awaits(msg.id) && msg.ty == MSG_TYPE_ACK ==> m.on_message(crc, msg, now) == (Endpoint {
            pending: None,
            state: State::Idle,
            ..m
        }),
{
}

// ---- receiving ----

/// Where a frame is handled there is room on the wire, so no reply is ever
/// dropped: an intact DAT frame gets exactly one ACK or NAK for its id, a damaged
/// one a NAK, a SYN a RYN with the own next id, and nothing else gets a reply
/// except a NAK of the payload in flight, which gets that payload.
pub proof fn law_replies_are_never_dropped<C: Crc>(
    m: Endpoint,
    crc: C,
    msg: Message,
    now: Instant,
)
    requires
        !m.wire_full(),
    ensures
        ({
            let wire = m.on_message(crc, msg, now).wire;
            let ack = crate::frame::ctl_bytes(crc, MSG_TYPE_ACK, msg.id);
            let nak = crate::frame::ctl_bytes(crc, MSG_TYPE_NAK, msg.id);
            let ryn = crate::frame::ctl_bytes(crc, MSG_TYPE_RYN, m.next_pkt_id);
            &&& !msg.intact && msg.ty == MSG_TYPE_DAT ==> wire == m.wire.push(nak)
            &&& msg.intact && msg.ty == MSG_TYPE_DAT ==> wire == m.wire.push(
                if msg.id == crate::endpoint::next_id(m.recv_pkt_id) && m.incoming.len()
                    >= PAYLOAD_RING {
                    nak
                } else {
                    ack
                },
            )
            &&& msg.intact && msg.ty == MSG_TYPE_SYN ==> wire == m.wire.push(ryn)
            &&& msg.ty != MSG_TYPE_DAT && !(msg.intact && msg.ty == MSG_TYPE_SYN)
                && !m.reads_clock(msg) ==> wire == m.wire
        }),
{
}

/// Only the next expected id is taken, and only where there is room for the
/// payload. Any other message leaves what the upper layer will read as it is.
pub proof fn law_only_expected_is_taken<C: Crc>(m: Endpoint, crc: C, msg: Message, now: Instant)
    ensures
        ({
            let next = m.on_message(crc, msg, now);
            &&& next.partial == m.partial
            &&& next.incoming == if msg.intact && msg.ty == MSG_TYPE_DAT && msg.id
                == crate::endpoint::next_id(m.recv_pkt_id) && m.incoming.len() < PAYLOAD_RING {
                m.incoming.push(msg.payload)
            } else {
                m.incoming
            }
        }),
{
}

/// A DAT frame with any other id than the expected one is a duplicate: it is
/// counted and acknowledged, and nothing else changes.
pub proof fn law_any_other_id_is_duplicate<C: Crc>(
    m: Endpoint,
    crc: C,
    msg: Message,
    now: Instant,
)
    requires
        msg.intact,
        msg.ty == MSG_TYPE_DAT,
        msg.id != crate::endpoint::next_id(m.recv_pkt_id),
        !m.wire_full(),
    ensures
        m.on_message(crc, msg, now) == (Endpoint {
            recv: RecvMetrics { dup: crate::metrics::counted(m.recv.dup), ..m.recv },
            send: SendMetrics { ack: crate::metrics::counted(m.send.ack), ..m.send },
            wire: m.wire.push(crate::frame::ctl_bytes(crc, MSG_TYPE_ACK, msg.id)),
            ..m
        }),
{
}

/// A payload is kept once and acknowledged twice where its DAT frame comes twice:
/// the second copy is not taken again, is acknowledged like the first, and is
/// counted as a duplicate.
pub proof fn law_second_copy_is_duplicate<C: Crc>(
    m: Endpoint,
    crc: C,
    msg: Message,
    now: Instant,
)
    requires
        msg.intact,
        msg.ty == MSG_TYPE_DAT,
        msg.id == crate::endpoint::next_id(m.recv_pkt_id),
        m.incoming.len() < PAYLOAD_RING,
        m.wire.len() + 2 <= TX_FIFO,
    ensures
        ({
            let once = m.on_message(crc, msg, now);
            let twice = once.on_message(crc, msg, now);
            let ack = crate::frame::ctl_bytes(crc, MSG_TYPE_ACK, msg.id);
            &&& once.incoming == m.incoming.push(msg.payload)
            &&& once.recv_pkt_id == msg.id
            &&& once.wire == m.wire.push(ack)
            &&& twice == (Endpoint {
                recv: RecvMetrics { dup: crate::metrics::counted(once.recv.dup), ..once.recv },
                send: SendMetrics { ack: crate::metrics::counted(once.send.ack), ..once.send },
                wire: once.wire.push(ack),
                ..once
            })
        }),
{
}

/// Backpressure delays a payload and does not lose it: refused for want of room, it
/// gets a NAK and stays the expected one; sent again once the reader has made room
/// and its NAK is out, it is taken and acknowledged like any other, and not for a
/// duplicate.
pub proof fn law_refused_payload_is_taken_later<C: Crc>(
    m: Endpoint,
    crc: C,
    msg: Message,
    now: Instant,
    incoming: Seq<Seq<u8>>,
    partial: Seq<u8>,
    wire: Seq<Seq<u8>>,
)
    requires
        msg.intact,
        msg.ty == MSG_TYPE_DAT,
        msg.id == crate::endpoint::next_id(m.recv_pkt_id),
        m.incoming.len() >= PAYLOAD_RING,
        !m.wire_full(),
        incoming.len() < PAYLOAD_RING,
        wire.len() < TX_FIFO,
    ensures
        ({
            let refused = m.on_message(crc, msg, now);
            let later = Endpoint { incoming, partial, wire, ..refused };
            &&& refused == (Endpoint {
                recv: RecvMetrics {
                    backpressure: crate::metrics::counted(m.recv.backpressure),
                    ..m.recv
                },
                send: SendMetrics { nak: crate::metrics::counted(m.send.nak), ..m.send },
                wire: m.wire.push(crate::frame::ctl_bytes(crc, MSG_TYPE_NAK, msg.id)),
                ..m
            })
            &&& later.on_message(crc, msg, now) == (Endpoint {
                recv_pkt_id: msg.id,
                incoming: incoming.push(msg.payload),
                recv: RecvMetrics {
                    dat: crate::metrics::counted(refused.recv.dat),
                    ..refused.recv
                },
                send: SendMetrics { ack: crate::metrics::counted(refused.send.ack), ..refused.send },
                wire: wire.push(crate::frame::ctl_bytes(crc, MSG_TYPE_ACK, msg.id)),
                ..later
            })
        }),
{
}

/// A payload that there is no room for gets a NAK, which makes the peer send the
/// same frame again at once.
pub proof fn law_backpressure_forces_retransmission<C: Crc>(
    a: Endpoint,
    b: Endpoint,
    crc: C,
    now: Instant,
)
    requires
        crate::crc::crc_lawful(crc),
        a.valid(),
        a.can_resend(),
        a.awaits(crate::endpoint::next_id(b.recv_pkt_id)),
        b.incoming.len() >= PAYLOAD_RING,
        !b.wire_full(),
    ensures
        ({
            let id = crate::endpoint::next_id(b.recv_pkt_id);
            let dat = crate::frame::dat_bytes(crc, id, a.pending->0);
            let b2 = b.on_message(crc, crate::frame::message_in(crc, dat), now);
            let a2 = a.on_message(crc, crate::frame::message_in(crc, b2.wire.last()), now);
            &&& b2.incoming == b.incoming
            &&& b2.recv_pkt_id == b.recv_pkt_id
            &&& b2.recv.backpressure == crate::metrics::counted(b.recv.backpressure)
            &&& b2.wire == b.wire.push(crate::frame::ctl_bytes(crc, MSG_TYPE_NAK, id))
            &&& a2.wire == a.wire.push(dat)
            &&& a2.send.retrans == crate::metrics::counted(a.send.retrans)
        }),
{
    let id = crate::endpoint::next_id(b.recv_pkt_id);
    crate::frame::law_dat_round_trip(crc, id, a.pending->0);
    crate::frame::law_ctl_round_trip(crc, MSG_TYPE_NAK, id);
}

/// A damaged frame changes nothing but the wire and the counters.
pub proof fn law_damage_is_harmless<C: Crc>(m: Endpoint, crc: C, msg: Message, now: Instant)
    requires
        !msg.intact,
    ensures
        ({
            let next = m.on_message(crc, msg, now);
            &&& next == (Endpoint { wire: next.wire, send: next.send, recv: next.recv, ..m })
            &&& next.recv.crc == crate::metrics::counted(m.recv.crc)
        }),
{
}

/// Handling a message neither reads nor changes the inbox.
pub proof fn lemma_inbox_apart<C: Crc>(
    m: Endpoint,
    crc: C,
    msg: Message,
    now: Instant,
    inbox: Seq<u8>,
)
    ensures
        (Endpoint { inbox, ..m }).on_message(crc, msg, now) == (Endpoint {
            inbox,
            ..m.on_message(crc, msg, now)
        }),
        (Endpoint { inbox, ..m }).reads_clock(msg) == m.reads_clock(msg),
        m.on_message(crc, msg, now).inbox == m.inbox,
{
}

// ---- the handshake ----

/// SYN and RYN put both ends in step: once the peer has the SYN it expects the
/// id that this end sends next, and answers with its own, so that once the RYN is
/// back this end expects the peer's next id and is no longer syncing.
pub proof fn law_handshake<C: Crc>(a: Endpoint, b: Endpoint, crc: C, now: Instant)
    requires
        crate::crc::crc_lawful(crc),
        a.state is Syncing,
        !b.wire_full(),
    ensures
        ({
            let syn = crate::frame::ctl_bytes(crc, MSG_TYPE_SYN, a.next_pkt_id);
            let b2 = b.on_message(crc, crate::frame::message_in(crc, syn), now);
            let ryn = b2.wire.last();
            let a2 = a.on_message(crc, crate::frame::message_in(crc, ryn), now);
            &&& crate::endpoint::next_id(b2.recv_pkt_id) == a.next_pkt_id
            &&& b2.wire == b.wire.push(ryn)
            &&& crate::endpoint::next_id(a2.recv_pkt_id) == b2.next_pkt_id
            &&& a2.state is Idle
            &&& a2.next_pkt_id == a.next_pkt_id
        }),
{
    crate::frame::law_ctl_round_trip(crc, MSG_TYPE_SYN, a.next_pkt_id);
    crate::frame::law_ctl_round_trip(crc, MSG_TYPE_RYN, b.next_pkt_id);
}

/// A SYN in mid-stream gives up the payload in flight, counts it as lost, and
/// takes the link back to syncing; the peer's next payload is expected under the
/// id that the SYN names.
pub proof fn law_peer_restart<C: Crc>(m: Endpoint, crc: C, id: u8)
    ensures
        ({
            let next = m.on_syn(crc, id);
            &&& crate::endpoint::next_id(next.recv_pkt_id) == id
            &&& m.state is AwaitingAck ==> next.state is Syncing && next.pending is None
                && next.send.lost == crate::metrics::counted(m.send.lost)
            &&& !(m.state is AwaitingAck) ==> next.state == m.state && next.pending == m.pending
                && next.send.lost == m.send.lost
        }),
{
}

/// While syncing, a SYN is queued whenever one is due and the next one is due a
/// period later; before that, nothing happens.
pub proof fn law_syn_is_repeated<C: Crc>(m: Endpoint, crc: C, clock: Seq<Instant>)
    requires
        m.state is Syncing,
    ensures
        ({
            let t = m.ticked(crc, clock);
            &&& clock[0].millis() < m.next_syn_at.millis() ==> t == m
            &&& clock[0].millis() >= m.next_syn_at.millis() ==> t.next_syn_at == clock[1].later(
                crate::endpoint::SYNC_PERIOD_MILLIS,
            ) && t.state is Syncing
            &&& clock[0].millis() >= m.next_syn_at.millis() && !m.wire_full() ==> t.wire
                == m.wire.push(crate::frame::ctl_bytes(crc, MSG_TYPE_SYN, m.next_pkt_id))
        }),
{
}

// ---- one payload across the link ----

/// A payload that one end sends, the other end reads: with both ends in step and
/// room at the receiver, the frame that goes out makes the payload the last in
/// line for the peer's reader, the ACK that comes back completes it, and both
/// ends are in step for the next one.
pub proof fn law_payload_crosses<C: Crc>(
    a: Endpoint,
    b: Endpoint,
    crc: C,
    clock: Seq<Instant>,
    now: Instant,
)
    requires
        crate::crc::crc_lawful(crc),
        a.valid(),
        a.can_send(),
        crate::endpoint::next_id(b.recv_pkt_id) == a.next_pkt_id,
        b.incoming.len() < PAYLOAD_RING,
        !b.wire_full(),
    ensures
        ({
            let a2 = a.ticked(crc, clock);
            let b2 = b.on_message(crc, crate::frame::message_in(crc, a2.wire.last()), now);
            let a3 = a2.on_message(crc, crate::frame::message_in(crc, b2.wire.last()), now);
            &&& b2.incoming == b.incoming.push(a.outgoing.first())
            &&& b2.wire == b.wire.push(crate::frame::ctl_bytes(crc, MSG_TYPE_ACK, a.next_pkt_id))
            &&& a3.state is Idle
            &&& a3.pending is None
            &&& a3.outgoing == a.outgoing.drop_first()
            &&& crate::endpoint::next_id(b2.recv_pkt_id) == a3.next_pkt_id
        }),
{
    let payload = a.outgoing.first();
    assert(payload == a.outgoing[0]);
    crate::frame::law_dat_round_trip(crc, a.next_pkt_id, payload);
    crate::frame::law_ctl_round_trip(crc, MSG_TYPE_ACK, a.next_pkt_id);
}

// ---- whole polls ----

/// A poll reports success exactly when it hands over bytes, and never more than
/// there is room for.
pub proof fn law_polled_bytes<C: Crc, E>(
    start: Endpoint,
    crc: C,
    room: nat,
    replies: Replies<E>,
)
    ensures
        start.polled(crc, room, replies).out matches Some(out) ==> {
            &&& out.bytes.len() <= room
            &&& out.bytes.len() > 0 <==> out.result matches Poll::Ready(Ok(_))
        },
    decreases replies.io.len(),
{
    let r = start.receiving(crc, replies, 0);
    let reads = r.end.tick_reads(r.left.clock);
    let d = r.end.ticked(crc, r.left.clock).draining(r.left.after_clock(reads), 0);
    if d.left.io.len() < replies.io.len() {
        law_polled_bytes(d.end.after_handing(room), crc, room, d.left);
    }
}

} // verus!
