//! What one end of a link is and does, in terms of sequences.
//!
//! [`Endpoint`] is the model of the machine's state. Its first group of
//! functions says what a message, the passing of time, or the upper layer does
//! to that state. The second group puts these together: each function there
//! takes the replies that the lower layer and the clock gave, in order, and says
//! where they lead.

use crate::crc::Crc;
use crate::error::ArqError;
use crate::frame::{
    Message, HDR_LEN, MAX_FRAME, MAX_PAYLOAD, MSG_TYPE_ACK, MSG_TYPE_DAT, MSG_TYPE_NAK,
    MSG_TYPE_RYN, MSG_TYPE_SYN,
};
use crate::lower::LowerEvent;
use crate::metrics::{RecvMetrics, SendMetrics};
use crate::time::Instant;
use core::task::Poll;
use vstd::prelude::*;

verus! {

/// Payloads that wait on either side of the link.
pub const PAYLOAD_RING: usize = 4;

/// Frames that wait for the lower layer.
pub const TX_FIFO: usize = 3;

/// Milliseconds between two SYN frames.
pub const SYNC_PERIOD_MILLIS: u64 = 1000;

/// Milliseconds after which an unacknowledged DAT frame is sent again.
pub const ACK_TIMEOUT_MILLIS: u64 = 50;

/// The phase that one end of a link is in.
#[derive(Clone, Copy, PartialEq, Eq, Debug, Structural)]
pub enum State {
    /// Send SYN until RYN arrives.
    Syncing,
    /// A DAT frame is in flight.
    AwaitingAck { pending_id: u8, attempts: usize, deadline: Instant },
    /// Synced, nothing pending.
    Idle,
}

/// The id after `id`.
pub open spec fn next_id(id: u8) -> u8 {
    if id == u8::MAX {
        0
    } else {
        (id + 1) as u8
    }
}

/// The id before `id`.
pub open spec fn prev_id(id: u8) -> u8 {
    if id == 0 {
        u8::MAX
    } else {
        (id - 1) as u8
    }
}

/// One end of a link.
#[verifier::ext_equal]
pub struct Endpoint {
    pub send: SendMetrics,
    pub recv: RecvMetrics,
    /// The id of the next new DAT frame.
    pub next_pkt_id: u8,
    /// The id of the last DAT frame received in order.
    pub recv_pkt_id: u8,
    /// The payload in flight.
    pub pending: Option<Seq<u8>>,
    /// How often a payload is sent again before it is given up.
    pub max_resend: usize,
    /// When the next SYN is due.
    pub next_syn_at: Instant,
    /// Bytes from the upper layer that do not fill a payload yet.
    pub staging: Seq<u8>,
    /// Payloads to send, oldest first.
    pub outgoing: Seq<Seq<u8>>,
    /// Payloads received, oldest first.
    pub incoming: Seq<Seq<u8>>,
    /// What is left of the payload that the upper layer is reading.
    pub partial: Seq<u8>,
    /// Frames for the lower layer, oldest first; of the first one, only what
    /// has not been written yet.
    pub wire: Seq<Seq<u8>>,
    /// Bytes from the lower layer that do not make a frame yet.
    pub inbox: Seq<u8>,
    pub state: State,
}

/// Replies of the lower layer and readings of the clock, each in the order in
/// which they were given.
#[verifier::ext_equal]
#[verifier::reject_recursive_types(E)]
pub struct Replies<E> {
    pub io: Seq<LowerEvent<E>>,
    pub clock: Seq<Instant>,
}

impl<E> Replies<E> {
    pub open spec fn none() -> Replies<E> {
        Replies { io: Seq::empty(), clock: Seq::empty() }
    }

    /// A single call of the lower layer.
    pub open spec fn call(event: LowerEvent<E>) -> Replies<E> {
        Replies { io: seq![event], clock: Seq::empty() }
    }

    /// Readings of the clock alone.
    pub open spec fn readings(clock: Seq<Instant>) -> Replies<E> {
        Replies { io: Seq::empty(), clock }
    }

    /// These replies, and after them `more`.
    pub open spec fn and(self, more: Replies<E>) -> Replies<E> {
        Replies { io: self.io + more.io, clock: self.clock + more.clock }
    }

    /// What came after `before`.
    pub open spec fn since(self, before: Replies<E>) -> Replies<E> {
        Replies {
            io: self.io.skip(before.io.len() as int),
            clock: self.clock.skip(before.clock.len() as int),
        }
    }

    /// What remains once the next call of the lower layer is answered.
    pub open spec fn after_io(self) -> Replies<E> {
        Replies { io: self.io.skip(1), clock: self.clock }
    }

    /// What remains once the clock has been read `n` times.
    pub open spec fn after_clock(self, n: nat) -> Replies<E> {
        Replies { io: self.io, clock: self.clock.skip(n as int) }
    }
}

/// Where a run of the machine ends: the state it leaves, the replies it did not
/// use, and its result. There is no result where the replies are too few or
/// answer other calls than the machine makes.
#[verifier::ext_equal]
#[verifier::reject_recursive_types(E)]
#[verifier::reject_recursive_types(R)]
pub struct Run<E, R> {
    pub end: Endpoint,
    pub left: Replies<E>,
    pub out: Option<R>,
}

/// The result of polling the machine, and the bytes handed to the upper layer.
#[verifier::ext_equal]
#[verifier::reject_recursive_types(E)]
pub struct Polled<E> {
    pub result: Poll<Result<(), ArqError<E>>>,
    pub bytes: Seq<u8>,
}

impl<E> Polled<E> {
    /// What reading gives: the number of bytes handed over in place of success.
    pub open spec fn read_result(self) -> Poll<Result<usize, ArqError<E>>> {
        match self.result {
            Poll::Pending => Poll::Pending,
            Poll::Ready(Ok(_)) => Poll::Ready(Ok(self.bytes.len() as usize)),
            Poll::Ready(Err(e)) => Poll::Ready(Err(e)),
        }
    }
}

// ---- single steps ----

impl Endpoint {
    /// A link that nothing has happened on.
    pub open spec fn fresh(max_resend: usize) -> Endpoint {
        Endpoint {
            send: SendMetrics::zero(),
            recv: RecvMetrics::zero(),
            next_pkt_id: 0,
            recv_pkt_id: u8::MAX,
            pending: None,
            max_resend,
            next_syn_at: Instant::of_millis(0),
            staging: Seq::empty(),
            outgoing: Seq::empty(),
            incoming: Seq::empty(),
            partial: Seq::empty(),
            wire: Seq::empty(),
            inbox: Seq::empty(),
            state: State::Syncing,
        }
    }

    /// What holds of a link at all times: every buffer is within its bounds, a
    /// payload is pending exactly while its acknowledgement is awaited, and its id
    /// is the one before the next new one.
    pub open spec fn valid(self) -> bool {
        &&& self.wire.len() <= TX_FIFO
        &&& forall|i: int| 0 <= i < self.wire.len() ==> 0 < (#[trigger] self.wire[i]).len() <= MAX_FRAME
        &&& self.outgoing.len() <= PAYLOAD_RING
        &&& forall|i: int|
            0 <= i < self.outgoing.len() ==> (#[trigger] self.outgoing[i]).len() <= MAX_PAYLOAD
        &&& self.incoming.len() <= PAYLOAD_RING
        &&& forall|i: int|
            0 <= i < self.incoming.len() ==> (#[trigger] self.incoming[i]).len() <= MAX_PAYLOAD
        &&& self.staging.len() <= MAX_PAYLOAD
        &&& self.partial.len() <= MAX_PAYLOAD
        &&& self.inbox.len() <= MAX_FRAME
        &&& self.pending matches Some(p) ==> p.len() <= MAX_PAYLOAD
        &&& self.pending is Some <==> self.state is AwaitingAck
        &&& self.state matches State::AwaitingAck { pending_id, .. } ==> next_id(pending_id)
            == self.next_pkt_id
    }

    /// No frame can be queued for the lower layer.
    pub open spec fn wire_full(self) -> bool {
        self.wire.len() >= TX_FIFO
    }

    /// The DAT frame in flight bears `id`.
    pub open spec fn awaits(self, id: u8) -> bool {
        self.state matches State::AwaitingAck { pending_id, .. } && pending_id == id
    }

    /// Nothing staged, nothing queued, nothing in flight.
    pub open spec fn quiescent(self) -> bool {
        &&& self.staging.len() == 0
        &&& self.outgoing.len() == 0
        &&& self.wire.len() == 0
        &&& self.state is Idle
    }

    /// Queues a control frame and counts it, where there is room for it.
    pub open spec fn control<C: Crc>(self, crc: C, ty: u8, id: u8) -> Endpoint {
        if self.wire_full() {
            self
        } else {
            let send = if ty == MSG_TYPE_ACK {
                SendMetrics { ack: crate::metrics::counted(self.send.ack), ..self.send }
            } else if ty == MSG_TYPE_NAK {
                SendMetrics { nak: crate::metrics::counted(self.send.nak), ..self.send }
            } else if ty == MSG_TYPE_SYN {
                SendMetrics { syn: crate::metrics::counted(self.send.syn), ..self.send }
            } else {
                SendMetrics { ryn: crate::metrics::counted(self.send.ryn), ..self.send }
            };
            Endpoint { wire: self.wire.push(crate::frame::ctl_bytes(crc, ty, id)), send, ..self }
        }
    }

    /// The pending payload can be sent again at once.
    pub open spec fn can_resend(self) -> bool {
        self.state is AwaitingAck && self.pending is Some && !self.wire_full()
    }

    /// Sends the pending payload again under its id, where there is room for
    /// the frame; otherwise no attempt is used up. `now` starts the new wait.
    pub open spec fn resent<C: Crc>(self, crc: C, now: Instant) -> Endpoint {
        match (self.state, self.pending) {
            (State::AwaitingAck { pending_id, attempts, .. }, Some(payload)) if !self.wire_full() => {
                Endpoint {
                    wire: self.wire.push(crate::frame::dat_bytes(crc, pending_id, payload)),
                    send: SendMetrics {
                        retrans: crate::metrics::counted(self.send.retrans),
                        ..self.send
                    },
                    state: State::AwaitingAck {
                        pending_id,
                        attempts: if attempts == usize::MAX {
                            0
                        } else {
                            (attempts + 1) as usize
                        },
                        deadline: now.later(ACK_TIMEOUT_MILLIS),
                    },
                    ..self
                }
            },
            _ => self,
        }
    }

    /// Handling `msg` needs the time.
    pub open spec fn reads_clock(self, msg: Message) -> bool {
        msg.intact && msg.ty == MSG_TYPE_NAK && self.awaits(msg.id) && self.can_resend()
    }

    /// What a received message does; `now` is the time, where it is needed.
    pub open spec fn on_message<C: Crc>(self, crc: C, msg: Message, now: Instant) -> Endpoint {
        if !msg.intact {
            self.on_damaged(crc, msg)
        } else if msg.ty == MSG_TYPE_ACK {
            // The matching ack completes the DAT in flight; any other is ignored.
            if self.awaits(msg.id) {
                Endpoint { pending: None, state: State::Idle, ..self }
            } else {
                self
            }
        } else if msg.ty == MSG_TYPE_NAK {
            if self.awaits(msg.id) {
                self.resent(crc, now)
            } else {
                self
            }
        } else if msg.ty == MSG_TYPE_SYN {
            self.on_syn(crc, msg.id)
        } else if msg.ty == MSG_TYPE_RYN {
            Endpoint {
                recv_pkt_id: prev_id(msg.id),
                state: if self.state is Syncing {
                    State::Idle
                } else {
                    self.state
                },
                ..self
            }
        } else if msg.ty == MSG_TYPE_DAT {
            self.on_dat(crc, msg.id, msg.payload)
        } else {
            self
        }
    }

    /// A frame whose checksum does not match: a DAT frame is asked for again.
    pub open spec fn on_damaged<C: Crc>(self, crc: C, msg: Message) -> Endpoint {
        let m = Endpoint {
            recv: RecvMetrics { crc: crate::metrics::counted(self.recv.crc), ..self.recv },
            ..self
        };
        if msg.ty == MSG_TYPE_DAT {
            m.control(crc, MSG_TYPE_NAK, msg.id)
        } else {
            m
        }
    }

    /// The peer starts over at `id`. A payload in flight, which the peer would
    /// take for a duplicate, is given up and the link synced again.
    pub open spec fn on_syn<C: Crc>(self, crc: C, id: u8) -> Endpoint {
        let m = Endpoint { recv_pkt_id: prev_id(id), ..self };
        let m = if self.state is AwaitingAck {
            Endpoint {
                pending: None,
                send: SendMetrics { lost: crate::metrics::counted(m.send.lost), ..m.send },
                state: State::Syncing,
                ..m
            }
        } else {
            m
        };
        m.control(crc, MSG_TYPE_RYN, self.next_pkt_id)
    }

    /// Only the next expected id is taken; any other is a duplicate and still
    /// gets an ACK. Where there is no room for the payload, it gets a NAK and its id
    /// stays the expected one.
    pub open spec fn on_dat<C: Crc>(self, crc: C, id: u8, payload: Seq<u8>) -> Endpoint {
        if id != next_id(self.recv_pkt_id) {
            Endpoint {
                recv: RecvMetrics { dup: crate::metrics::counted(self.recv.dup), ..self.recv },
                ..self
            }.control(crc, MSG_TYPE_ACK, id)
        } else if self.incoming.len() < PAYLOAD_RING {
            Endpoint {
                recv_pkt_id: id,
                incoming: self.incoming.push(payload),
                recv: RecvMetrics { dat: crate::metrics::counted(self.recv.dat), ..self.recv },
                ..self
            }.control(crc, MSG_TYPE_ACK, id)
        } else {
            Endpoint {
                recv: RecvMetrics {
                    backpressure: crate::metrics::counted(self.recv.backpressure),
                    ..self.recv
                },
                ..self
            }.control(crc, MSG_TYPE_NAK, id)
        }
    }

    /// A new DAT frame can be sent.
    pub open spec fn can_send(self) -> bool {
        self.state is Idle && !self.wire_full() && self.outgoing.len() > 0
    }

    /// How often the clock is read to see whether something is due, given its
    /// readings.
    pub open spec fn tick_reads(self, clock: Seq<Instant>) -> nat {
        match self.state {
            State::Syncing => if clock[0].millis() >= self.next_syn_at.millis() {
                2
            } else {
                1
            },
            State::AwaitingAck { attempts, deadline, .. } => if clock[0].millis()
                >= deadline.millis() && attempts < self.max_resend && self.can_resend() {
                2
            } else {
                1
            },
            State::Idle => if self.can_send() {
                1
            } else {
                0
            },
        }
    }

    /// The pending payload is overdue and has been sent as often as allowed.
    pub open spec fn gives_up(self, clock: Seq<Instant>) -> bool {
        self.state matches State::AwaitingAck { attempts, deadline, .. } && clock[0].millis()
            >= deadline.millis() && attempts >= self.max_resend
    }

    /// What is due is done: a SYN while syncing, the next payload while idle, and
    /// while an ACK is awaited, once it is overdue, another attempt or the end of
    /// them.
    pub open spec fn ticked<C: Crc>(self, crc: C, clock: Seq<Instant>) -> Endpoint {
        match self.state {
            State::Syncing => if clock[0].millis() >= self.next_syn_at.millis() {
                Endpoint { next_syn_at: clock[1].later(SYNC_PERIOD_MILLIS), ..self }.control(
                    crc,
                    MSG_TYPE_SYN,
                    self.next_pkt_id,
                )
            } else {
                self
            },
            State::AwaitingAck { deadline, .. } => if clock[0].millis() < deadline.millis() {
                self
            } else if self.gives_up(clock) {
                Endpoint {
                    pending: None,
                    state: State::Idle,
                    send: SendMetrics { lost: crate::metrics::counted(self.send.lost), ..self.send },
                    ..self
                }
            } else {
                self.resent(crc, clock[1])
            },
            State::Idle => if self.can_send() {
                let payload = self.outgoing.first();
                Endpoint {
                    outgoing: self.outgoing.drop_first(),
                    next_pkt_id: next_id(self.next_pkt_id),
                    wire: self.wire.push(crate::frame::dat_bytes(crc, self.next_pkt_id, payload)),
                    send: SendMetrics { dat: crate::metrics::counted(self.send.dat), ..self.send },
                    pending: Some(payload),
                    state: State::AwaitingAck {
                        pending_id: self.next_pkt_id,
                        attempts: 0,
                        deadline: clock[0].later(ACK_TIMEOUT_MILLIS),
                    },
                    ..self
                }
            } else {
                self
            },
        }
    }

    /// The lower layer took `n` bytes of the first frame in line.
    pub open spec fn wrote(self, n: nat) -> Endpoint {
        let first = self.wire.first();
        Endpoint {
            wire: if n >= first.len() {
                self.wire.drop_first()
            } else {
                self.wire.update(0, first.skip(n as int))
            },
            ..self
        }
    }

    /// The bytes that the upper layer gets next: the rest of the payload that it
    /// is reading, or else the next payload.
    pub open spec fn readable(self) -> Seq<u8> {
        if self.partial.len() > 0 {
            self.partial
        } else if self.incoming.len() > 0 {
            self.incoming.first()
        } else {
            Seq::empty()
        }
    }

    /// As many of these bytes as fit into `room`.
    pub open spec fn handed(self, room: nat) -> Seq<u8> {
        if room < self.readable().len() {
            self.readable().take(room as int)
        } else {
            self.readable()
        }
    }

    /// What is left once they are handed over.
    pub open spec fn after_handing(self, room: nat) -> Endpoint {
        if room == 0 || (self.partial.len() == 0 && self.incoming.len() == 0) {
            self
        } else {
            Endpoint {
                partial: self.readable().skip(self.handed(room).len() as int),
                incoming: if self.partial.len() > 0 {
                    self.incoming
                } else {
                    self.incoming.drop_first()
                },
                ..self
            }
        }
    }

    /// There are payloads to hand over, and room for their bytes.
    pub open spec fn more_to_hand(self, room: nat) -> bool {
        room > 0 && self.incoming.len() > 0
    }

    /// How many bytes of `data` the upper layer can get rid of.
    pub open spec fn takes(self, data: Seq<u8>) -> nat {
        let room = MAX_PAYLOAD * (PAYLOAD_RING - self.outgoing.len()) + MAX_PAYLOAD
            - self.staging.len();
        if data.len() <= room {
            data.len()
        } else {
            room as nat
        }
    }

    /// The bytes that do not fill a payload yet, with the new ones behind them.
    pub open spec fn staged_with(self, data: Seq<u8>) -> Seq<u8> {
        self.staging + data.take(self.takes(data) as int)
    }

    /// How many whole payloads these bytes make, as far as there is room for
    /// them.
    pub open spec fn filled(self, data: Seq<u8>) -> nat {
        let whole = self.staged_with(data).len() / MAX_PAYLOAD as nat;
        if whole <= PAYLOAD_RING - self.outgoing.len() {
            whole
        } else {
            (PAYLOAD_RING - self.outgoing.len()) as nat
        }
    }

    /// The upper layer hands over `data`: as much as there is room for is taken,
    /// whole payloads are queued, the rest is staged.
    pub open spec fn accepting(self, data: Seq<u8>) -> Endpoint {
        let all = self.staged_with(data);
        Endpoint {
            outgoing: self.outgoing + Seq::new(
                self.filled(data),
                |i: int| all.subrange(MAX_PAYLOAD * i, MAX_PAYLOAD * (i + 1)),
            ),
            staging: all.skip(MAX_PAYLOAD * self.filled(data)),
            ..self
        }
    }

    /// What writing `data` gives, once the machine was driven with the result
    /// `polled`: an error, or the number of bytes taken. It is pending where
    /// there are bytes and no room for any.
    pub open spec fn write_result<E>(
        self,
        data: Seq<u8>,
        polled: Poll<Result<(), ArqError<E>>>,
    ) -> Poll<Result<usize, ArqError<E>>> {
        match polled {
            Poll::Ready(Err(e)) => Poll::Ready(Err(e)),
            _ => if self.takes(data) == 0 && data.len() > 0 {
                Poll::Pending
            } else {
                Poll::Ready(Ok(self.takes(data) as usize))
            },
        }
    }

    /// A payload that is not full is queued as it is, where there is room.
    pub open spec fn pushing_out(self) -> Endpoint {
        if self.staging.len() > 0 && self.outgoing.len() < PAYLOAD_RING {
            Endpoint {
                outgoing: self.outgoing.push(self.staging),
                staging: Seq::empty(),
                ..self
            }
        } else {
            self
        }
    }
}

// ---- runs ----

impl Endpoint {
    /// Ends a run with a result.
    pub open spec fn done<E, R>(self, left: Replies<E>, out: R) -> Run<E, R> {
        Run { end: self, left, out: Some(out) }
    }

    /// Ends a run whose replies do not fit.
    pub open spec fn stuck<E, R>(self, left: Replies<E>) -> Run<E, R> {
        Run { end: self, left, out: None }
    }

    /// A header is there and announces a frame that is too long.
    pub open spec fn oversized(self) -> bool {
        self.inbox.len() >= HDR_LEN && crate::frame::announced_len(self.inbox) > MAX_FRAME
    }

    /// A whole frame is there.
    pub open spec fn frame_ready(self) -> bool {
        self.inbox.len() >= HDR_LEN && self.inbox.len() >= crate::frame::announced_len(self.inbox)
    }

    /// The message in the first frame of the inbox.
    pub open spec fn first_message<C: Crc>(self, crc: C) -> Message {
        crate::frame::message_in(crc, self.inbox.take(crate::frame::announced_len(self.inbox)))
    }

    /// The inbox without its first frame.
    pub open spec fn without_first(self) -> Endpoint {
        Endpoint { inbox: self.inbox.skip(crate::frame::announced_len(self.inbox)), ..self }
    }

    /// Receiving: whole frames are handled as they come, until the lower layer
    /// has no more bytes or the wire is full, so that a reply to the next frame
    /// always has room. `seen` frames were handled before; no more are than can be
    /// counted.
    pub open spec fn receiving<C: Crc, E>(self, crc: C, replies: Replies<E>, seen: usize) -> Run<
        E,
        Result<usize, ArqError<E>>,
    >
        decreases replies.io.len(), self.inbox.len(),
    {
        if self.wire_full() || seen == usize::MAX {
            self.done(replies, Ok(seen))
        } else if self.oversized() {
            Endpoint {
                recv: RecvMetrics {
                    framing: crate::metrics::counted(self.recv.framing),
                    ..self.recv
                },
                inbox: Seq::empty(),
                ..self
            }.done(replies, Err(ArqError::Framing))
        } else if self.frame_ready() {
            let msg = self.first_message(crc);
            let m = self.without_first();
            let seen = (seen + 1) as usize;
            if !m.reads_clock(msg) {
                m.on_message(crc, msg, Instant::of_millis(0)).receiving(crc, replies, seen)
            } else if replies.clock.len() > 0 {
                m.on_message(crc, msg, replies.clock[0]).receiving(
                    crc,
                    replies.after_clock(1),
                    seen,
                )
            } else {
                self.stuck(replies)
            }
        } else if replies.io.len() == 0 {
            self.stuck(replies)
        } else {
            match replies.io[0] {
                LowerEvent::Read { room, got } if room == MAX_FRAME - self.inbox.len() => {
                    match got {
                        Poll::Pending => self.done(replies.after_io(), Ok(seen)),
                        Poll::Ready(Err(e)) => self.done(
                            replies.after_io(),
                            Err(ArqError::Io(e)),
                        ),
                        Poll::Ready(Ok(bytes)) => if bytes.len() == 0 {
                            self.done(replies.after_io(), Err(ArqError::Closed))
                        } else {
                            Endpoint { inbox: self.inbox + bytes, ..self }.receiving(
                                crc,
                                replies.after_io(),
                                seen,
                            )
                        },
                    }
                },
                _ => self.stuck(replies),
            }
        }
    }

    /// Sending: the frames in line are offered one after the other, until the
    /// lower layer does not take one whole. `sent` bytes were taken before.
    pub open spec fn draining<E>(self, replies: Replies<E>, sent: nat) -> Run<
        E,
        Result<nat, ArqError<E>>,
    >
        decreases replies.io.len(),
    {
        if self.wire.len() == 0 {
            self.done(replies, Ok(sent))
        } else if replies.io.len() == 0 {
            self.stuck(replies)
        } else {
            match replies.io[0] {
                LowerEvent::Write { offered, taken } if offered == self.wire.first() => {
                    match taken {
                        Poll::Pending => self.done(replies.after_io(), Ok(sent)),
                        Poll::Ready(Err(e)) => self.done(
                            replies.after_io(),
                            Err(ArqError::Io(e)),
                        ),
                        Poll::Ready(Ok(n)) => if n == 0 {
                            self.done(replies.after_io(), Err(ArqError::Closed))
                        } else if n >= offered.len() {
                            self.wrote(n as nat).draining(replies.after_io(), sent + n as nat)
                        } else {
                            self.wrote(n as nat).done(replies.after_io(), Ok(sent + n as nat))
                        },
                    }
                },
                _ => self.stuck(replies),
            }
        }
    }

    /// Polling with room for `room` bytes: receive, do what is due, send, hand
    /// bytes over; and again, as long as there is neither a byte nor an error to
    /// report and frames came in, bytes went out or there is more to hand over. Every
    /// pass calls the lower layer.
    pub open spec fn polled<C: Crc, E>(self, crc: C, room: nat, replies: Replies<E>) -> Run<
        E,
        Polled<E>,
    >
        decreases replies.io.len(),
    {
        let r = self.receiving(crc, replies, 0);
        let reads = r.end.tick_reads(r.left.clock);
        let t = r.end.ticked(crc, r.left.clock);
        let d = t.draining(r.left.after_clock(reads), 0);
        let bytes = d.end.handed(room);
        let m = d.end.after_handing(room);
        match r.out {
            None => self.stuck(replies),
            Some(Err(e)) => r.end.done(
                r.left,
                Polled { result: Poll::Ready(Err(e)), bytes: Seq::empty() },
            ),
            Some(Ok(frames_in)) => if r.left.clock.len() < reads {
                self.stuck(replies)
            } else {
                match d.out {
                    None => self.stuck(replies),
                    Some(Err(e)) => d.end.done(
                        d.left,
                        Polled { result: Poll::Ready(Err(e)), bytes: Seq::empty() },
                    ),
                    Some(Ok(bytes_out)) => if bytes.len() > 0 {
                        m.done(d.left, Polled { result: Poll::Ready(Ok(())), bytes })
                    } else if r.end.gives_up(r.left.clock) {
                        m.done(
                            d.left,
                            Polled { result: Poll::Ready(Err(ArqError::Timeout)), bytes },
                        )
                    } else if frames_in == 0 && bytes_out == 0 && !m.more_to_hand(room) {
                        m.done(d.left, Polled { result: Poll::Pending, bytes })
                    } else if d.left.io.len() < replies.io.len() {
                        m.polled(crc, room, d.left)
                    } else {
                        self.stuck(replies)
                    },
                }
            },
        }
    }

    /// A poll has used `used`, more calls than can be counted, and stands at `now`:
    /// whatever replies are still to come, they lead from there to where the whole
    /// poll leads.
    pub open spec fn polls_on<C: Crc, E>(
        self,
        crc: C,
        room: nat,
        used: Replies<E>,
        now: Endpoint,
    ) -> bool {
        &&& used.io.len() > u64::MAX
        &&& forall|more: Replies<E>| #[trigger]
            self.polled(crc, room, used.and(more)) == now.polled(crc, room, more)
    }

    /// Flushing the lower layer.
    pub open spec fn flushing_lower<E>(self, replies: Replies<E>) -> Run<
        E,
        Poll<Result<(), ArqError<E>>>,
    > {
        if replies.io.len() == 0 {
            self.stuck(replies)
        } else {
            match replies.io[0] {
                LowerEvent::Flush { flushed } => self.done(
                    replies.after_io(),
                    match flushed {
                        Poll::Pending => Poll::Pending,
                        Poll::Ready(Ok(())) => Poll::Ready(Ok(())),
                        Poll::Ready(Err(e)) => Poll::Ready(Err(ArqError::Io(e))),
                    },
                ),
                _ => self.stuck(replies),
            }
        }
    }

    /// Flushing: a payload that is not full is queued, then the machine is
    /// polled unless it is quiescent. Once it is, the lower layer is flushed.
    pub open spec fn flushing<C: Crc, E>(self, crc: C, replies: Replies<E>) -> Run<
        E,
        Poll<Result<(), ArqError<E>>>,
    > {
        let m = self.pushing_out();
        let p = m.polled(crc, 0, replies);
        if m.quiescent() {
            m.flushing_lower(replies)
        } else {
            match p.out {
                None => self.stuck(replies),
                Some(polled) => if polled.result is Pending && p.end.quiescent() {
                    p.end.flushing_lower(p.left)
                } else {
                    p.end.done(p.left, polled.result)
                },
            }
        }
    }
}

} // verus!
