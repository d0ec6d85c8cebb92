//! What each thing that happens to an end does to it, in plain numbers: what
//! changes, by how much, and that nothing else does.

use crate::crc::Crc;
use crate::endpoint::{Endpoint, State};
use crate::frame::Message;
use crate::metrics::{RecvMetrics, SendMetrics};
use crate::time::Instant;
use vstd::prelude::*;

verus! {

broadcast use crate::time::group_time;

/// The counter after `n`.
pub open spec fn one_more(n: u32) -> int {
    (n + 1) % 0x1_0000_0000
}

/// `t` is `ms` milliseconds after `from`, or the last instant there is.
pub open spec fn is_after(t: Instant, from: Instant, ms: int) -> bool {
    t.millis() == if from.millis() + ms <= u64::MAX {
        from.millis() + ms
    } else {
        u64::MAX as int
    }
}

/// All that a message can touch is as it was, but for the wire and the counters.
pub open spec fn replied(m: Endpoint, next: Endpoint) -> bool {
    next == (Endpoint { wire: next.wire, send: next.send, recv: next.recv, ..m })
}

// ---- numbers ----

/// Ids go round in 256.
pub proof fn law_ids_go_round(id: u8)
    ensures
        crate::endpoint::next_id(id) == (id + 1) % 256,
        crate::endpoint::prev_id(id) == (id + 255) % 256,
{
}

/// Counters go up by one and go round in 2^32.
pub proof fn law_counters_go_up(n: u32)
    ensures
        crate::metrics::counted(n) == one_more(n),
{
}

/// Times add up to the millisecond, as far as they go.
pub proof fn law_times_add_up(t: Instant, ms: u64)
    ensures
        is_after(t.later(ms), t, ms as int),
{
}

/// A wire holds three frames, a ring four payloads; a header has five bytes, a frame
/// at most 256 and a payload at most 251.
pub proof fn law_limits(m: Endpoint)
    ensures
        m.wire_full() <==> m.wire.len() >= 3,
        m.oversized() <==> m.inbox.len() >= 5 && m.inbox[2] > 251,
        m.frame_ready() <==> m.inbox.len() >= 5 && m.inbox.len() >= 5 + m.inbox[2],
        m.frame_ready() ==> m.without_first() == (Endpoint {
            inbox: m.inbox.skip(5 + m.inbox[2]),
            ..m
        }),
        m.valid() ==> m.wire.len() <= 3 && m.outgoing.len() <= 4 && m.incoming.len() <= 4
            && m.inbox.len() <= 256 && m.staging.len() <= 251 && m.partial.len() <= 251,
{
}

/// An end that is made knows nothing yet: it is syncing, its first SYN is due at once,
/// its first payload will be number 0, and so is the first that it expects.
pub proof fn law_new_end(max_resend: usize)
    ensures
        ({
            let m = Endpoint::fresh(max_resend);
            &&& m.state is Syncing
            &&& m.next_syn_at.millis() == 0
            &&& m.next_pkt_id == 0
            &&& crate::endpoint::next_id(m.recv_pkt_id) == 0
            &&& m.max_resend == max_resend
            &&& m.pending is None
            &&& m.staging.len() == 0 && m.outgoing.len() == 0
            &&& m.incoming.len() == 0 && m.partial.len() == 0
            &&& m.wire.len() == 0 && m.inbox.len() == 0
            &&& m.send == (SendMetrics {
                dat: 0,
                retrans: 0,
                syn: 0,
                ack: 0,
                nak: 0,
                ryn: 0,
                lost: 0,
            })
            &&& m.recv == (RecvMetrics { dat: 0, framing: 0, crc: 0, dup: 0, backpressure: 0 })
        }),
{
}

// ---- messages ----

/// No message, intact or not, changes when the next SYN is due, how often a payload is
/// sent again, which id is next, what the writer wrote, what the reader is reading, or
/// what is in the inbox; and none takes anything off the wire or from what was
/// received.
pub proof fn law_messages_leave_alone<C: Crc>(m: Endpoint, crc: C, msg: Message, now: Instant)
    ensures
        ({
            let next = m.on_message(crc, msg, now);
            &&& next.next_syn_at == m.next_syn_at
            &&& next.max_resend == m.max_resend
            &&& next.next_pkt_id == m.next_pkt_id
            &&& next.staging == m.staging
            &&& next.outgoing == m.outgoing
            &&& next.partial == m.partial
            &&& next.inbox == m.inbox
            &&& m.wire.is_prefix_of(next.wire)
            &&& next.wire.len() <= m.wire.len() + 1
            &&& m.incoming.is_prefix_of(next.incoming)
            &&& next.incoming.len() <= m.incoming.len() + 1
            &&& next.send.dat == m.send.dat
            &&& next.send.syn == m.send.syn
            &&& next.recv.framing == m.recv.framing
        }),
{
    let next = m.on_message(crc, msg, now);
    assert(m.wire =~= next.wire.take(m.wire.len() as int));
    assert(m.incoming =~= next.incoming.take(m.incoming.len() as int));
}

/// An ACK ends the flight of the payload with its id, and that is all it does; any
/// other ACK does nothing.
pub proof fn law_ack_ends_the_flight<C: Crc>(m: Endpoint, crc: C, msg: Message, now: Instant)
    requires
        msg.intact,
        msg.ty == 1,
    ensures
        ({
            let next = m.on_message(crc, msg, now);
            let mine = m.state matches State::AwaitingAck { pending_id, .. } && pending_id
                == msg.id;
            &&& !mine ==> next == m
            &&& mine ==> next.state is Idle && next.pending is None
            &&& next == (Endpoint { state: next.state, pending: next.pending, ..m })
        }),
{
}

/// A NAK for the payload in flight has it sent again: the same frame under the same id,
/// one attempt more, and a new wait of 50 milliseconds from now. Any other NAK does
/// nothing.
pub proof fn law_nak_starts_a_new_wait<C: Crc>(m: Endpoint, crc: C, msg: Message, now: Instant)
    requires
        m.valid(),
        msg.intact,
        msg.ty == 2,
        m.wire.len() < 3,
    ensures
        m.state matches State::AwaitingAck { pending_id, attempts, .. } ==> (pending_id == msg.id
            ==> {
            let next = m.on_message(crc, msg, now);
            &&& next.state matches State::AwaitingAck {
                pending_id: id,
                attempts: tries,
                deadline,
            } && id == pending_id && is_after(deadline, now, 50) && (attempts < usize::MAX
                ==> tries == attempts + 1)
            &&& m.pending matches Some(payload) && next.wire == m.wire.push(
                crate::frame::dat_bytes(crc, pending_id, payload),
            )
            &&& next.send.retrans == one_more(m.send.retrans)
            &&& next.send == (SendMetrics { retrans: next.send.retrans, ..m.send })
            &&& next == (Endpoint { wire: next.wire, state: next.state, send: next.send, ..m })
        }),
        !(m.state is AwaitingAck && m.state->pending_id == msg.id) ==> m.on_message(crc, msg, now)
            == m,
{
}

/// A SYN makes its id the next one expected and is answered with a RYN that names the
/// own next id. A payload in flight is lost, and the link syncs again; without one,
/// the phase stays.
pub proof fn law_syn_is_answered<C: Crc>(m: Endpoint, crc: C, msg: Message, now: Instant)
    requires
        msg.intact,
        msg.ty == 3,
        m.wire.len() < 3,
    ensures
        ({
            let next = m.on_message(crc, msg, now);
            &&& (next.recv_pkt_id + 1) % 256 == msg.id
            &&& next.wire == m.wire.push(crate::frame::ctl_bytes(crc, 4, m.next_pkt_id))
            &&& next.send.ryn == one_more(m.send.ryn)
            &&& if m.state is AwaitingAck {
                &&& next.state is Syncing
                &&& next.pending is None
                &&& next.send.lost == one_more(m.send.lost)
            } else {
                &&& next.state == m.state
                &&& next.pending == m.pending
                &&& next.send.lost == m.send.lost
            }
            &&& next.send == (SendMetrics {
                ryn: next.send.ryn,
                lost: next.send.lost,
                ..m.send
            })
            &&& next == (Endpoint {
                recv_pkt_id: next.recv_pkt_id,
                wire: next.wire,
                send: next.send,
                state: next.state,
                pending: next.pending,
                ..m
            })
        }),
{
}

/// A RYN makes its id the next one expected and ends syncing. It does nothing else,
/// and nothing to a payload in flight.
pub proof fn law_ryn_ends_syncing<C: Crc>(m: Endpoint, crc: C, msg: Message, now: Instant)
    requires
        msg.intact,
        msg.ty == 4,
    ensures
        ({
            let next = m.on_message(crc, msg, now);
            &&& (next.recv_pkt_id + 1) % 256 == msg.id
            &&& m.state is Syncing ==> next.state is Idle
            &&& !(m.state is Syncing) ==> next.state == m.state
            &&& next == (Endpoint { recv_pkt_id: next.recv_pkt_id, state: next.state, ..m })
        }),
{
}

/// A DAT frame with the expected id is queued for the reader where fewer than four
/// payloads wait, and acknowledged; where four wait it gets a NAK and stays expected;
/// with any other id it is acknowledged and not queued. Each of the three is counted.
pub proof fn law_dat_is_answered<C: Crc>(m: Endpoint, crc: C, msg: Message, now: Instant)
    requires
        msg.intact,
        msg.ty == 5,
        m.wire.len() < 3,
    ensures
        ({
            let next = m.on_message(crc, msg, now);
            let expected = msg.id == (m.recv_pkt_id + 1) % 256;
            if expected && m.incoming.len() >= 4 {
                &&& replied(m, next)
                &&& next.wire == m.wire.push(crate::frame::ctl_bytes(crc, 2, msg.id))
                &&& next.send.nak == one_more(m.send.nak)
                &&& next.send == (SendMetrics { nak: next.send.nak, ..m.send })
                &&& next.recv.backpressure == one_more(m.recv.backpressure)
                &&& next.recv == (RecvMetrics { backpressure: next.recv.backpressure, ..m.recv })
            } else {
                &&& next.wire == m.wire.push(crate::frame::ctl_bytes(crc, 1, msg.id))
                &&& next.send.ack == one_more(m.send.ack)
                &&& next.send == (SendMetrics { ack: next.send.ack, ..m.send })
                &&& if expected {
                    &&& replied(
                        Endpoint {
                            recv_pkt_id: msg.id,
                            incoming: m.incoming.push(msg.payload),
                            ..m
                        },
                        next,
                    )
                    &&& next.recv.dat == one_more(m.recv.dat)
                    &&& next.recv == (RecvMetrics { dat: next.recv.dat, ..m.recv })
                } else {
                    &&& replied(m, next)
                    &&& next.recv.dup == one_more(m.recv.dup)
                    &&& next.recv == (RecvMetrics { dup: next.recv.dup, ..m.recv })
                }
            }
        }),
{
}

/// A damaged frame is counted. A DAT frame gets a NAK for the id that it bears; any
/// other gets no reply. Nothing else happens.
pub proof fn law_damage_is_reported<C: Crc>(m: Endpoint, crc: C, msg: Message, now: Instant)
    requires
        !msg.intact,
        m.wire.len() < 3,
    ensures
        ({
            let next = m.on_message(crc, msg, now);
            &&& replied(m, next)
            &&& next.recv.crc == one_more(m.recv.crc)
            &&& next.recv == (RecvMetrics { crc: next.recv.crc, ..m.recv })
            &&& if msg.ty == 5 {
                &&& next.wire == m.wire.push(crate::frame::ctl_bytes(crc, 2, msg.id))
                &&& next.send.nak == one_more(m.send.nak)
                &&& next.send == (SendMetrics { nak: next.send.nak, ..m.send })
            } else {
                next.wire == m.wire && next.send == m.send
            }
        }),
{
}

/// A message of an unknown type is ignored.
pub proof fn law_unknown_is_ignored<C: Crc>(m: Endpoint, crc: C, msg: Message, now: Instant)
    requires
        msg.intact,
        msg.ty == 0 || msg.ty > 5,
    ensures
        m.on_message(crc, msg, now) == m,
{
}

/// The first frame of the inbox is as long as its third byte says, and what it says is
/// what is handled.
pub proof fn law_first_frame<C: Crc>(m: Endpoint, crc: C)
    requires
        m.frame_ready(),
    ensures
        ({
            let msg = m.first_message(crc);
            let frame = m.inbox.take(5 + m.inbox[2]);
            &&& msg.ty == m.inbox[0]
            &&& msg.id == m.inbox[1]
            &&& msg.payload.len() == m.inbox[2]
            &&& frame == m.inbox.take(5) + msg.payload
            &&& m.inbox == frame + m.without_first().inbox
            &&& msg == crate::frame::message_in(crc, frame)
        }),
{
    let frame = m.inbox.take(5 + m.inbox[2]);
    assert(frame =~= m.inbox.take(5) + frame.skip(5));
    assert(m.inbox =~= frame + m.inbox.skip(5 + m.inbox[2]));
}

/// With no room on the wire, a message does what it would do with room, but its reply is
/// dropped and not counted, and a retransmission that it asks for is put off.
pub proof fn law_full_wire_drops_replies<C: Crc>(
    m: Endpoint,
    crc: C,
    msg: Message,
    now: Instant,
)
    requires
        m.wire.len() >= 3,
    ensures
        ({
            let next = m.on_message(crc, msg, now);
            let roomy = Endpoint { wire: Seq::empty(), ..m }.on_message(crc, msg, now);
            &&& next.wire == m.wire
            &&& next.send == (SendMetrics { lost: next.send.lost, ..m.send })
            &&& if msg.intact && msg.ty == 2 {
                next == m
            } else {
                &&& next.send.lost == roomy.send.lost
                &&& next == (Endpoint { wire: m.wire, send: next.send, ..roomy })
            }
        }),
{
}

// ---- time ----

/// While syncing, a SYN with the next id goes out once it is due, and the next is due
/// 1000 milliseconds later; before that, nothing happens.
pub proof fn law_syn_goes_out<C: Crc>(m: Endpoint, crc: C, clock: Seq<Instant>)
    requires
        m.state is Syncing,
        m.wire.len() < 3,
    ensures
        ({
            let next = m.ticked(crc, clock);
            if clock[0].millis() < m.next_syn_at.millis() {
                next == m
            } else {
                &&& is_after(next.next_syn_at, clock[1], 1000)
                &&& next.wire == m.wire.push(crate::frame::ctl_bytes(crc, 3, m.next_pkt_id))
                &&& next.send.syn == one_more(m.send.syn)
                &&& next.send == (SendMetrics { syn: next.send.syn, ..m.send })
                &&& next == (Endpoint {
                    next_syn_at: next.next_syn_at,
                    wire: next.wire,
                    send: next.send,
                    ..m
                })
            }
        }),
{
}

/// While a payload is in flight nothing happens before its deadline. From then on it is
/// sent again, if that was done fewer than `max_resend` times, with a new wait of 50
/// milliseconds; otherwise it is given up and counted as lost.
pub proof fn law_overdue_is_sent_again<C: Crc>(m: Endpoint, crc: C, clock: Seq<Instant>)
    requires
        m.valid(),
        m.wire.len() < 3,
    ensures
        m.state matches State::AwaitingAck { pending_id, attempts, deadline } ==> {
            let next = m.ticked(crc, clock);
            let overdue = clock[0].millis() >= deadline.millis();
            &&& m.gives_up(clock) <==> overdue && attempts >= m.max_resend
            &&& !overdue ==> next == m
            &&& overdue && attempts < m.max_resend ==> {
                &&& next.state matches State::AwaitingAck {
                    pending_id: id,
                    attempts: tries,
                    deadline: until,
                } && id == pending_id && tries == attempts + 1 && is_after(until, clock[1], 50)
                &&& m.pending matches Some(payload) && next.wire == m.wire.push(
                    crate::frame::dat_bytes(crc, pending_id, payload),
                )
                &&& next.send.retrans == one_more(m.send.retrans)
                &&& next.send == (SendMetrics { retrans: next.send.retrans, ..m.send })
                &&& next == (Endpoint {
                    wire: next.wire,
                    state: next.state,
                    send: next.send,
                    ..m
                })
            }
            &&& overdue && attempts >= m.max_resend ==> {
                &&& next.state is Idle
                &&& next.pending is None
                &&& next.send.lost == one_more(m.send.lost)
                &&& next.send == (SendMetrics { lost: next.send.lost, ..m.send })
                &&& next == (Endpoint {
                    state: next.state,
                    pending: next.pending,
                    send: next.send,
                    ..m
                })
            }
        },
{
}

/// With no room on the wire, time sends nothing: a retransmission is put off as it is,
/// and so is a new payload. A payload that was sent as often as allowed is given up all
/// the same, and only a SYN is not made up for.
pub proof fn law_full_wire_puts_off<C: Crc>(m: Endpoint, crc: C, clock: Seq<Instant>)
    requires
        m.valid(),
        m.wire.len() >= 3,
    ensures
        ({
            let next = m.ticked(crc, clock);
            &&& next.wire == m.wire
            &&& next.outgoing == m.outgoing
            &&& next.next_pkt_id == m.next_pkt_id
            &&& m.state is Idle ==> next == m
            &&& m.state is Syncing ==> {
                &&& next == (Endpoint { next_syn_at: next.next_syn_at, ..m })
                &&& if clock[0].millis() < m.next_syn_at.millis() {
                    next.next_syn_at == m.next_syn_at
                } else {
                    is_after(next.next_syn_at, clock[1], 1000)
                }
            }
            &&& m.state matches State::AwaitingAck { attempts, deadline, .. } ==> (
            if clock[0].millis() >= deadline.millis() && attempts >= m.max_resend {
                &&& next.state is Idle
                &&& next.pending is None
                &&& next.send.lost == one_more(m.send.lost)
                &&& next.send == (SendMetrics { lost: next.send.lost, ..m.send })
                &&& next == (Endpoint {
                    state: next.state,
                    pending: next.pending,
                    send: next.send,
                    ..m
                })
            } else {
                next == m
            })
        }),
{
}

/// An idle end sends the oldest payload in its queue, if there is one: under the next
/// id, with a wait of 50 milliseconds, and no attempt used up.
pub proof fn law_idle_sends_the_next<C: Crc>(m: Endpoint, crc: C, clock: Seq<Instant>)
    requires
        m.state is Idle,
        m.wire.len() < 3,
    ensures
        m.can_send() <==> m.outgoing.len() > 0,
        ({
            let next = m.ticked(crc, clock);
            if m.outgoing.len() == 0 {
                next == m
            } else {
                let payload = m.outgoing[0];
                &&& next.state matches State::AwaitingAck { pending_id, attempts, deadline }
                    && pending_id == m.next_pkt_id && attempts == 0 && is_after(
                    deadline,
                    clock[0],
                    50,
                )
                &&& next.pending == Some(payload)
                &&& m.outgoing == seq![payload] + next.outgoing
                &&& next.next_pkt_id == (m.next_pkt_id + 1) % 256
                &&& next.wire == m.wire.push(
                    crate::frame::dat_bytes(crc, m.next_pkt_id, payload),
                )
                &&& next.send.dat == one_more(m.send.dat)
                &&& next.send == (SendMetrics { dat: next.send.dat, ..m.send })
                &&& next == (Endpoint {
                    state: next.state,
                    pending: next.pending,
                    outgoing: next.outgoing,
                    next_pkt_id: next.next_pkt_id,
                    wire: next.wire,
                    send: next.send,
                    ..m
                })
            }
        }),
{
    if m.outgoing.len() > 0 {
        assert(m.outgoing =~= seq![m.outgoing[0]] + m.ticked(crc, clock).outgoing);
    }
}

/// When the clock is read. A message needs it only where it has a payload sent again.
/// Time needs it once to see whether something is due, unless the end is idle and has
/// nothing to send, and once more where a SYN or a retransmission goes out.
pub proof fn law_clock_is_read(m: Endpoint, msg: Message, clock: Seq<Instant>)
    requires
        m.valid(),
    ensures
        m.reads_clock(msg) <==> msg.intact && msg.ty == 2 && m.wire.len() < 3
            && m.state is AwaitingAck && m.state->pending_id == msg.id,
        m.tick_reads(clock) == match m.state {
            State::Syncing => if clock[0].millis() < m.next_syn_at.millis() {
                1int
            } else {
                2
            },
            State::AwaitingAck { attempts, deadline, .. } => if clock[0].millis()
                < deadline.millis() || attempts >= m.max_resend || m.wire.len() >= 3 {
                1
            } else {
                2
            },
            State::Idle => if m.outgoing.len() == 0 || m.wire.len() >= 3 {
                0
            } else {
                1
            },
        },
{
}

// ---- the lower layer ----

/// Of the first frame in line the bytes that were taken are gone, and the frame with
/// its last byte; the others, and all else, stay.
pub proof fn law_taken_bytes_are_gone(m: Endpoint, n: nat)
    requires
        m.wire.len() > 0,
        n <= m.wire[0].len(),
    ensures
        ({
            let next = m.wrote(n);
            &&& next == (Endpoint { wire: next.wire, ..m })
            &&& if n == m.wire[0].len() {
                m.wire == seq![m.wire[0]] + next.wire
            } else {
                &&& next.wire.len() == m.wire.len()
                &&& m.wire[0] == m.wire[0].take(n as int) + next.wire[0]
                &&& forall|i: int| 1 <= i < m.wire.len() ==> next.wire[i] == m.wire[i]
            }
        }),
{
    if n == m.wire[0].len() {
        assert(m.wire =~= seq![m.wire[0]] + m.wrote(n).wire);
    } else {
        assert(m.wire[0] =~= m.wire[0].take(n as int) + m.wrote(n).wire[0]);
    }
}

// ---- the upper layer ----

/// The reader gets as much as fits of one payload: of the one that it is reading, or
/// else of the oldest that waits. What does not fit stays for the next time, and a
/// payload that is at its end makes way for the next.
pub proof fn law_reader_gets_what_fits(m: Endpoint, room: nat)
    ensures
        ({
            let next = m.after_handing(room);
            let bytes = m.handed(room);
            let left = if m.partial.len() > 0 {
                m.partial
            } else {
                m.incoming[0]
            };
            &&& next == (Endpoint { partial: next.partial, incoming: next.incoming, ..m })
            &&& if room == 0 || (m.partial.len() == 0 && m.incoming.len() == 0) {
                next == m && bytes.len() == 0
            } else {
                &&& bytes.len() == if left.len() <= room {
                    left.len()
                } else {
                    room
                }
                &&& left == bytes + next.partial
                &&& if m.partial.len() > 0 {
                    next.incoming == m.incoming
                } else {
                    m.incoming == seq![m.incoming[0]] + next.incoming
                }
            }
        }),
{
    let next = m.after_handing(room);
    if !(room == 0 || (m.partial.len() == 0 && m.incoming.len() == 0)) {
        assert(m.readable() =~= m.handed(room) + next.partial);
        if m.partial.len() == 0 {
            assert(m.incoming =~= seq![m.incoming[0]] + next.incoming);
        }
    } else {
        assert(m.handed(room).len() == 0);
    }
}

/// There is more to hand over exactly where there is room for bytes and a payload
/// waits.
pub proof fn law_more_for_the_reader(m: Endpoint, room: nat)
    ensures
        m.more_to_hand(room) <==> room > 0 && m.incoming.len() > 0,
{
}

/// The writer gets rid of all its bytes, or of as many as four payloads and a staged
/// one have room for. They are queued in payloads of 251 bytes; fewer bytes than that
/// stay staged, or 251 where the ring is full.
pub proof fn law_writer_gets_rid_of_what_fits(m: Endpoint, data: Seq<u8>)
    requires
        m.valid(),
    ensures
        ({
            let next = m.accepting(data);
            let room = 251 * (4 - m.outgoing.len()) + 251 - m.staging.len();
            &&& next == (Endpoint { staging: next.staging, outgoing: next.outgoing, ..m })
            &&& m.takes(data) == if data.len() <= room {
                data.len() as int
            } else {
                room
            }
            &&& m.outgoing.is_prefix_of(next.outgoing)
            &&& next.outgoing.len() <= 4
            &&& forall|i: int|
                m.outgoing.len() <= i < next.outgoing.len() ==> (#[trigger] next.outgoing[i]).len()
                    == 251
            &&& next.staging.len() < 251 || next.staging.len() == 251 && next.outgoing.len() == 4
            &&& crate::streams::unsent(next) == crate::streams::unsent(m) + data.take(
                m.takes(data) as int,
            )
        }),
{
    let next = m.accepting(data);
    let all = m.staged_with(data);
    let whole = all.len() / 251;
    assert(251 * whole <= all.len() < 251 * (whole + 1));
    crate::streams::law_writing_in_order(m, data);
    crate::laws::law_upper_layer_keeps_valid(m, 0, data);
    assert(m.outgoing =~= next.outgoing.take(m.outgoing.len() as int));
    assert forall|i: int| m.outgoing.len() <= i < next.outgoing.len() implies (
    #[trigger] next.outgoing[i]).len() == 251 by {
        let j = i - m.outgoing.len();
        assert(next.outgoing[i] == all.subrange(251 * j, 251 * (j + 1)));
    }
}

/// Flushing queues what is staged, where fewer than four payloads wait.
pub proof fn law_staged_is_pushed_out(m: Endpoint)
    ensures
        ({
            let next = m.pushing_out();
            &&& next == (Endpoint { staging: next.staging, outgoing: next.outgoing, ..m })
            &&& if m.staging.len() > 0 && m.outgoing.len() < 4 {
                next.outgoing == m.outgoing.push(m.staging) && next.staging.len() == 0
            } else {
                next == m
            }
        }),
{
}

} // verus!
