//! The machine: one instance per end of a link, polled from outside. All state
//! is owned by the machine; the upper layer talks to it through the two payload
//! rings by reading and writing.

use crate::crc::Crc;
use crate::endpoint::{
    Endpoint, Polled, Replies, State, ACK_TIMEOUT_MILLIS, PAYLOAD_RING, SYNC_PERIOD_MILLIS, TX_FIFO,
};
use crate::error::ArqError;
use crate::fifo::Fifo;
use crate::frame::{
    build_dat_frame, copy_to, ctl_frame, parse_frame, Frame, Parsed, Payload, HDR_LEN, MAX_FRAME,
    MAX_PAYLOAD, MSG_TYPE_ACK, MSG_TYPE_DAT, MSG_TYPE_NAK, MSG_TYPE_RYN, MSG_TYPE_SYN,
};
use crate::lower::{Lower, LowerEvent};
use crate::metrics::{RecvMetrics, SendMetrics};
use crate::ports::Ports;
use crate::time::{Duration, Instant, Timer};
use core::task::{Context, Poll};
use vstd::prelude::*;

verus! {

broadcast use {crate::replay::group_replies, crate::time::group_time};

/// The payload that the upper layer is reading, and how far it has got.
#[derive(Clone, Copy)]
struct Delivering {
    payload: Payload,
    off: usize,
}

/// One end of a link over the lower layer `L`, with the clock `T` and the
/// checksum `C`.
pub struct Arq<L: Lower, T, C> {
    ports: Ports<L, T>,
    crc: C,
    send: SendMetrics,
    recv: RecvMetrics,
    next_pkt_id: u8,
    recv_pkt_id: u8,
    pending: Option<Payload>,
    max_resend: usize,
    next_syn_at: Instant,
    payload_tx: Fifo<Payload, PAYLOAD_RING>,
    payload_rx: Fifo<Payload, PAYLOAD_RING>,
    tx_fifo: Fifo<Frame, TX_FIFO>,
    tx_off: usize,
    frame_buf: [u8; MAX_FRAME],
    frame_len: usize,
    staging: Payload,
    delivering: Option<Delivering>,
    delivered: usize,
    state: State,
}

/// The contents of a queue of payloads.
spec fn contents(queue: Seq<Payload>) -> Seq<Seq<u8>> {
    queue.map_values(|p: Payload| p@)
}

/// The unwritten contents of a queue of frames of whose first `off` bytes are
/// written.
spec fn unwritten(queue: Seq<Frame>, off: int) -> Seq<Seq<u8>> {
    Seq::new(
        queue.len(),
        |i: int|
            if i == 0 {
                queue[i]@.skip(off)
            } else {
                queue[i]@
            },
    )
}

/// A number of bytes, or an error, as the model has it.
pub(crate) open spec fn bytes_of<E>(written: Result<usize, ArqError<E>>) -> Result<
    nat,
    ArqError<E>,
> {
    match written {
        Ok(n) => Ok(n as nat),
        Err(e) => Err(e),
    }
}

impl<L: Lower, T, C> View for Arq<L, T, C> {
    type V = Endpoint;

    closed spec fn view(&self) -> Endpoint {
        Endpoint {
            send: self.send,
            recv: self.recv,
            next_pkt_id: self.next_pkt_id,
            recv_pkt_id: self.recv_pkt_id,
            pending: match self.pending {
                Some(p) => Some(p@),
                None => None,
            },
            max_resend: self.max_resend,
            next_syn_at: self.next_syn_at,
            staging: self.staging@,
            outgoing: contents(self.payload_tx@),
            incoming: contents(self.payload_rx@),
            partial: match self.delivering {
                Some(d) => d.payload@.skip(d.off as int),
                None => Seq::empty(),
            },
            wire: unwritten(self.tx_fifo@, self.tx_off as int),
            inbox: self.frame_buf@.take(self.frame_len as int),
            state: self.state,
        }
    }
}

impl<L: Lower, T: Timer, C: Crc> Arq<L, T, C> {
    /// The lower layer.
    pub closed spec fn lower(&self) -> L {
        self.ports.lower()
    }

    /// The clock.
    pub closed spec fn timer(&self) -> T {
        self.ports.timer()
    }

    /// The checksum.
    pub closed spec fn crc(&self) -> C {
        self.crc
    }

    /// All replies of the lower layer and all readings of the clock so far.
    pub closed spec fn heard(&self) -> Replies<L::Error> {
        self.ports.heard()
    }

    /// How many bytes the last poll handed to the upper layer.
    pub closed spec fn delivered(&self) -> usize {
        self.delivered
    }

    /// The lower layer's log as it was when the machine was made.
    pub closed spec fn earlier(&self) -> Seq<LowerEvent<L::Error>> {
        self.ports.earlier()
    }

    /// Every buffer is within its bounds, a payload is pending exactly while its
    /// acknowledgement is awaited, its id is the one before the next new one, and
    /// the record of what was heard is true.
    pub closed spec fn wf(&self) -> bool {
        &&& crate::crc::crc_comparable::<C>()
        &&& self.ports.wf()
        &&& self.payload_tx.wf()
        &&& forall|i: int| 0 <= i < self.payload_tx@.len() ==> (#[trigger] self.payload_tx@[i]).wf()
        &&& self.payload_rx.wf()
        &&& forall|i: int| 0 <= i < self.payload_rx@.len() ==> (#[trigger] self.payload_rx@[i]).wf()
        &&& self.tx_fifo.wf()
        &&& forall|i: int|
            0 <= i < self.tx_fifo@.len() ==> (#[trigger] self.tx_fifo@[i]).wf()
                && self.tx_fifo@[i].len > 0
        &&& self.tx_fifo@.len() == 0 ==> self.tx_off == 0
        &&& self.tx_fifo@.len() > 0 ==> self.tx_off < self.tx_fifo@[0].len
        &&& self.frame_len <= MAX_FRAME
        &&& self.staging.wf()
        &&& self.delivering matches Some(d) ==> d.payload.wf() && d.off < d.payload.len
        &&& self.pending matches Some(p) ==> p.wf()
        &&& self.pending is Some <==> self.state is AwaitingAck
        &&& self.state matches State::AwaitingAck { pending_id, .. } ==> crate::endpoint::next_id(
            pending_id,
        ) == self.next_pkt_id
    }

    /// The replies and readings since `before`.
    pub open spec fn heard_since(&self, before: &Arq<L, T, C>) -> Replies<L::Error> {
        self.heard().since(before.heard())
    }

    /// The same machine, after `replies` more.
    pub open spec fn follows(&self, before: &Arq<L, T, C>, replies: Replies<L::Error>) -> bool {
        &&& self.earlier() == before.earlier()
        &&& self.timer() == before.timer()
        &&& self.crc() == before.crc()
        &&& self.heard() == before.heard().and(replies)
        &&& crate::lower::honest(replies.io)
    }

    /// The replies since `before` are those of the calls that the lower layer has in
    /// its log since, and the readings since are readings of the clock.
    pub open spec fn heard_truly(&self, before: &Arq<L, T, C>) -> bool {
        let replies = self.heard_since(before);
        &&& self.lower().log() == before.lower().log() + replies.io
        &&& forall|i: int|
            0 <= i < replies.clock.len() ==> self.timer().may_read(#[trigger] replies.clock[i])
    }

    /// The same machine, with nothing said by the lower layer or the clock.
    spec fn silently(&self, before: &Arq<L, T, C>) -> bool {
        &&& self.ports == before.ports
        &&& self.crc == before.crc
        &&& self.delivered == before.delivered
    }
}

impl<L: Lower, T: Timer, C: Crc> Arq<L, T, C> {
    /// A well-formed machine is a valid end of a link.
    pub proof fn lemma_valid(&self)
        requires
            self.wf(),
        ensures
            self@.valid(),
    {
        self.payload_tx.lemma_bounded();
        self.payload_rx.lemma_bounded();
        self.tx_fifo.lemma_bounded();
    }

    /// What a machine has heard since `before` is what was said.
    pub proof fn lemma_heard_truly(&self, before: &Arq<L, T, C>, replies: Replies<L::Error>)
        requires
            before.wf(),
            self.wf(),
            self.follows(before, replies),
        ensures
            self.heard_truly(before),
    {
        assert(self.lower().log() =~= before.lower().log() + replies.io);
        assert forall|i: int| 0 <= i < replies.clock.len() implies self.timer().may_read(
            #[trigger] replies.clock[i],
        ) by {
            let all = self.heard().clock;
            assert(all[before.heard().clock.len() + i] == replies.clock[i]);
        }
    }

    /// A machine that has not synced yet.
    pub fn new(lower: L, timer: T, crc: C, max_resend: usize) -> (arq: Arq<L, T, C>)
        requires
            crate::crc::crc_comparable::<C>(),
        ensures
            arq.wf(),
            arq@ == Endpoint::fresh(max_resend),
            arq.lower() == lower,
            arq.timer() == timer,
            arq.crc() == crc,
            arq.heard() == Replies::<L::Error>::none(),
    {
        let arq = Arq {
            ports: Ports::new(lower, timer),
            crc,
            send: SendMetrics::default(),
            recv: RecvMetrics::default(),
            next_pkt_id: 0,
            recv_pkt_id: u8::MAX,
            pending: None,
            max_resend,
            next_syn_at: Instant::default(),
            payload_tx: Fifo::new(Payload::default()),
            payload_rx: Fifo::new(Payload::default()),
            tx_fifo: Fifo::new(Frame { data: [0u8; MAX_FRAME], len: 0 }),
            tx_off: 0,
            frame_buf: [0u8; MAX_FRAME],
            frame_len: 0,
            staging: Payload::default(),
            delivering: None,
            delivered: 0,
            state: State::Syncing,
        };
        proof {
            assert(arq@ =~= Endpoint::fresh(max_resend));
        }
        arq
    }

    /// A snapshot of the counters of the sending side.
    pub fn send_metrics(&self) -> (m: SendMetrics)
        ensures
            m == self@.send,
    {
        self.send
    }

    /// A snapshot of the counters of the receiving side.
    pub fn recv_metrics(&self) -> (m: RecvMetrics)
        ensures
            m == self@.recv,
    {
        self.recv
    }

    /// The phase that the link is in.
    pub fn state(&self) -> (s: State)
        ensures
            s == self@.state,
    {
        self.state
    }

    /// The id of the next new DAT frame.
    pub fn next_pkt_id(&self) -> (id: u8)
        ensures
            id == self@.next_pkt_id,
    {
        self.next_pkt_id
    }

    /// The id of the last DAT frame received in order.
    pub fn recv_pkt_id(&self) -> (id: u8)
        ensures
            id == self@.recv_pkt_id,
    {
        self.recv_pkt_id
    }

    /// Nothing staged, nothing queued, nothing in flight: ready to flush.
    fn quiescent(&self) -> (r: bool)
        requires
            self.wf(),
        ensures
            r == self@.quiescent(),
    {
        let idle = match self.state {
            State::Idle => true,
            _ => false,
        };
        self.staging.len == 0 && self.payload_tx.is_empty() && self.tx_fifo.is_empty() && idle
    }

    /// Queues a frame for the lower layer, where there is room for it.
    fn queue_frame(&mut self, frame: Frame) -> (done: bool)
        requires
            old(self).wf(),
            frame.wf(),
            frame.len > 0,
        ensures
            final(self).wf(),
            final(self).silently(old(self)),
            done == !old(self)@.wire_full(),
            final(self)@ == (Endpoint {
                wire: if done {
                    old(self)@.wire.push(frame@)
                } else {
                    old(self)@.wire
                },
                ..old(self)@
            }),
    {
        proof {
            self.tx_fifo.lemma_bounded();
        }
        let done = self.tx_fifo.push(frame);
        proof {
            if done {
                assert(self@.wire =~= old(self)@.wire.push(frame@)) by {
                    assert(frame@.skip(0) =~= frame@);
                }
            }
            assert(self@ =~= Endpoint { wire: self@.wire, ..old(self)@ });
        }
        done
    }

    /// Queues a control frame and counts it, where there is room for it.
    fn send_control(&mut self, ty: u8, id: u8)
        requires
            old(self).wf(),
        ensures
            final(self).wf(),
            final(self).silently(old(self)),
            final(self)@ == old(self)@.control(old(self).crc(), ty, id),
    {
        let frame = ctl_frame(&self.crc, ty, id);
        proof {
            assert(frame@.len() == HDR_LEN);
        }
        if self.queue_frame(frame) {
            if ty == MSG_TYPE_ACK {
                self.send.ack = self.send.ack.wrapping_add(1);
            } else if ty == MSG_TYPE_NAK {
                self.send.nak = self.send.nak.wrapping_add(1);
            } else if ty == MSG_TYPE_SYN {
                self.send.syn = self.send.syn.wrapping_add(1);
            } else {
                self.send.ryn = self.send.ryn.wrapping_add(1);
            }
        }
        proof {
            assert(self@ =~= old(self)@.control(old(self).crc(), ty, id));
        }
    }

    /// Sends the pending DAT again under the same id (on NAK and on timeout).
    /// If the fifo is full the retransmission is put off: no attempt is used up,
    /// and the past deadline retries it on the next poll. Returns the readings
    /// of the clock.
    fn resend(&mut self) -> (read: Ghost<Seq<Instant>>)
        requires
            old(self).wf(),
        ensures
            final(self).wf(),
            final(self).follows(old(self), Replies::readings(read@)),
            final(self).delivered() == old(self).delivered(),
            read@.len() == if old(self)@.can_resend() {
                1nat
            } else {
                0nat
            },
            forall|now: Instant|
                read@.len() == 0 || now == read@[0] ==> final(self)@ == #[trigger] old(self)@.resent(old(self).crc(), now),
    {
        let (pending_id, attempts) = match self.state {
            State::AwaitingAck { pending_id, attempts, .. } => (pending_id, attempts),
            _ => {
                return Ghost(Seq::empty());
            },
        };
        let payload: Payload = match self.pending {
            Some(p) => p,
            None => {
                return Ghost(Seq::empty());
            },
        };
        let frame = build_dat_frame(
            &self.crc,
            pending_id,
            vstd::slice::slice_subrange(&payload.data, 0, payload.len),
        );
        proof {
            assert(payload.data@.subrange(0, payload.len as int) =~= payload@);
            assert(frame@.len() == HDR_LEN + payload.len);
        }
        if self.queue_frame(frame) {
            self.send.retrans = self.send.retrans.wrapping_add(1);
            let now = self.ports.now();
            self.state = State::AwaitingAck {
                pending_id,
                attempts: attempts.wrapping_add(1),
                deadline: now + Duration::from_millis(ACK_TIMEOUT_MILLIS),
            };
            proof {
                assert(self@ =~= old(self)@.resent(old(self).crc(), now));
            }
            Ghost(Seq::empty().push(now))
        } else {
            proof {
                assert(self@ =~= old(self)@);
            }
            Ghost(Seq::empty())
        }
    }

    /// Acts on a received message. Returns the readings of the clock.
    pub(crate) fn handle_message(&mut self, p: Parsed) -> (read: Ghost<Seq<Instant>>)
        requires
            old(self).wf(),
            p.wf(),
        ensures
            final(self).wf(),
            final(self).follows(old(self), Replies::readings(read@)),
            final(self).delivered() == old(self).delivered(),
            read@.len() == if old(self)@.reads_clock(p@) {
                1nat
            } else {
                0nat
            },
            forall|now: Instant|
                read@.len() == 0 || now == read@[0] ==> final(self)@ == #[trigger] old(self)@.on_message(old(self).crc(), p@, now),
    {
        let ghost before = self@;
        let ghost crc = self.crc;
        if !p.crc_ok {
            self.recv.crc = self.recv.crc.wrapping_add(1);
            if p.ty == MSG_TYPE_DAT {
                self.send_control(MSG_TYPE_NAK, p.id);
            }
            proof {
                assert(self@ =~= before.on_damaged(crc, p@));
            }
            return Ghost(Seq::empty());
        }
        if p.ty == MSG_TYPE_ACK {
            if let State::AwaitingAck { pending_id, .. } = self.state {
                if pending_id == p.id {
                    self.pending = None;
                    self.state = State::Idle;
                }
            }
            proof {
                assert(self@ =~= before.on_message(crc, p@, Instant::of_millis(0)));
            }
        } else if p.ty == MSG_TYPE_NAK {
            if let State::AwaitingAck { pending_id, .. } = self.state {
                if pending_id == p.id {
                    return self.resend();
                }
            }
        } else if p.ty == MSG_TYPE_SYN {
            self.recv_pkt_id = p.id.wrapping_sub(1);
            if let State::AwaitingAck { .. } = self.state {
                self.pending = None;
                self.send.lost = self.send.lost.wrapping_add(1);
                self.state = State::Syncing;
            }
            let id: u8 = self.next_pkt_id;
            self.send_control(MSG_TYPE_RYN, id);
            proof {
                assert(self@ =~= before.on_syn(crc, p.id));
            }
        } else if p.ty == MSG_TYPE_RYN {
            self.recv_pkt_id = p.id.wrapping_sub(1);
            if let State::Syncing = self.state {
                self.state = State::Idle;
            }
            proof {
                assert(self@ =~= before.on_message(crc, p@, Instant::of_millis(0)));
            }
        } else if p.ty == MSG_TYPE_DAT {
            self.receive_dat(p);
        }
        Ghost(Seq::empty())
    }

    /// Acts on an intact DAT frame.
    fn receive_dat(&mut self, p: Parsed)
        requires
            old(self).wf(),
            p.wf(),
        ensures
            final(self).wf(),
            final(self).silently(old(self)),
            final(self)@ == old(self)@.on_dat(old(self).crc(), p.id, p@.payload),
    {
        let ghost before = self@;
        let ghost crc = self.crc;
        let expected: u8 = self.recv_pkt_id.wrapping_add(1);
        if p.id != expected {
            self.recv.dup = self.recv.dup.wrapping_add(1);
            self.send_control(MSG_TYPE_ACK, p.id);
            proof {
                assert(self@ =~= before.on_dat(crc, p.id, p@.payload));
            }
            return;
        }
        let pl = Payload { data: p.payload, len: p.plen };
        proof {
            self.payload_rx.lemma_bounded();
        }
        if self.payload_rx.push(pl) {
            self.recv_pkt_id = p.id;
            self.recv.dat = self.recv.dat.wrapping_add(1);
            proof {
                assert(self@.incoming =~= before.incoming.push(p@.payload));
            }
            self.send_control(MSG_TYPE_ACK, p.id);
        } else {
            // Backpressure: force the peer to retransmit. The id stays the
            // expected one, so that the retransmission is taken once there is room.
            self.recv.backpressure = self.recv.backpressure.wrapping_add(1);
            self.send_control(MSG_TYPE_NAK, p.id);
        }
        proof {
            assert(self@ =~= before.on_dat(crc, p.id, p@.payload));
        }
    }

    /// While syncing: sends SYN when it is due. Returns the readings of the
    /// clock.
    fn poll_syncing(&mut self) -> (read: Ghost<Seq<Instant>>)
        requires
            old(self).wf(),
            old(self)@.state is Syncing,
        ensures
            final(self).wf(),
            final(self).follows(old(self), Replies::readings(read@)),
            final(self).delivered() == old(self).delivered(),
            read@.len() == old(self)@.tick_reads(read@),
            final(self)@ == old(self)@.ticked(old(self).crc(), read@),
    {
        let first = self.ports.now();
        if first.as_millis() >= self.next_syn_at.as_millis() {
            let second = self.ports.now();
            self.next_syn_at = second + Duration::from_millis(SYNC_PERIOD_MILLIS);
            let id: u8 = self.next_pkt_id;
            self.send_control(MSG_TYPE_SYN, id);
            let ghost read = seq![first, second];
            proof {
                assert(seq![first] + seq![second] =~= read);
                assert(self@ =~= old(self)@.ticked(old(self).crc(), read));
            }
            Ghost(read)
        } else {
            Ghost(Seq::empty().push(first))
        }
    }

    /// While an ACK is awaited: sends the pending DAT again once it is overdue,
    /// or gives it up after the last attempt. ACK and NAK themselves are acted on
    /// as they come in. Returns whether the payload was given up, and the
    /// readings of the clock.
    fn poll_awaiting_ack(&mut self) -> (out: (bool, Ghost<Seq<Instant>>))
        requires
            old(self).wf(),
            old(self)@.state is AwaitingAck,
        ensures
            final(self).wf(),
            final(self).follows(old(self), Replies::readings(out.1@)),
            final(self).delivered() == old(self).delivered(),
            out.1@.len() == old(self)@.tick_reads(out.1@),
            out.0 == old(self)@.gives_up(out.1@),
            final(self)@ == old(self)@.ticked(old(self).crc(), out.1@),
    {
        let first = self.ports.now();
        if let State::AwaitingAck { attempts, deadline, .. } = self.state {
            if first.as_millis() < deadline.as_millis() {
                return (false, Ghost(Seq::empty().push(first)));
            }
            if attempts >= self.max_resend {
                self.pending = None;
                self.state = State::Idle;
                self.send.lost = self.send.lost.wrapping_add(1);
                proof {
                    assert(self@ =~= old(self)@.ticked(old(self).crc(), seq![first]));
                }
                return (true, Ghost(Seq::empty().push(first)));
            }
        }
        let more = self.resend();
        let ghost read = seq![first] + more@;
        proof {
            assert(self@ == old(self)@.resent(old(self).crc(), read[1]));
        }
        (false, Ghost(read))
    }

    /// While idle: sends the next payload of the upper layer. It is only taken
    /// when the fifo has room, otherwise it would be lost and the id sequence
    /// would have a gap. Returns the readings of the clock.
    fn poll_idle(&mut self) -> (read: Ghost<Seq<Instant>>)
        requires
            old(self).wf(),
            old(self)@.state is Idle,
        ensures
            final(self).wf(),
            final(self).follows(old(self), Replies::readings(read@)),
            final(self).delivered() == old(self).delivered(),
            read@.len() == old(self)@.tick_reads(read@),
            final(self)@ == old(self)@.ticked(old(self).crc(), read@),
    {
        let ghost before = self@;
        proof {
            self.tx_fifo.lemma_bounded();
        }
        if self.tx_fifo.is_full() {
            return Ghost(Seq::empty());
        }
        let payload: Payload = match self.payload_tx.pop() {
            Some(p) => p,
            None => {
                return Ghost(Seq::empty());
            },
        };
        proof {
            assert(self@.outgoing =~= before.outgoing.drop_first());
            assert(payload@ == before.outgoing.first());
        }
        let id: u8 = self.next_pkt_id;
        self.next_pkt_id = id.wrapping_add(1);
        let frame = build_dat_frame(
            &self.crc,
            id,
            vstd::slice::slice_subrange(&payload.data, 0, payload.len),
        );
        proof {
            assert(payload.data@.subrange(0, payload.len as int) =~= payload@);
            assert(frame@.len() == HDR_LEN + payload.len);
        }
        let queued = self.queue_frame(frame);
        assert(queued);
        self.send.dat = self.send.dat.wrapping_add(1);
        self.pending = Some(payload);
        let now = self.ports.now();
        self.state = State::AwaitingAck {
            pending_id: id,
            attempts: 0,
            deadline: now + Duration::from_millis(ACK_TIMEOUT_MILLIS),
        };
        proof {
            assert(self@ =~= before.ticked(old(self).crc(), seq![now]));
        }
        Ghost(Seq::empty().push(now))
    }

    /// Does what is due in the phase that the link is in. Returns whether a payload
    /// was given up, and the readings of the clock.
    fn do_what_is_due(&mut self) -> (out: (bool, Ghost<Seq<Instant>>))
        requires
            old(self).wf(),
        ensures
            final(self).wf(),
            final(self).follows(old(self), Replies::readings(out.1@)),
            final(self).delivered() == old(self).delivered(),
            out.1@.len() == old(self)@.tick_reads(out.1@),
            out.0 == old(self)@.gives_up(out.1@),
            final(self)@ == old(self)@.ticked(old(self).crc(), out.1@),
    {
        match self.state {
            State::Syncing => (false, self.poll_syncing()),
            State::AwaitingAck { .. } => self.poll_awaiting_ack(),
            State::Idle => (false, self.poll_idle()),
        }
    }

    /// Pulls bytes from the lower layer and hands each complete frame to the
    /// state machine. A frame's size is given by its length field; bytes of the
    /// following frame are rolled forward. If the tx fifo is full, this stops so
    /// that the control reply to a next frame always has room; the next poll
    /// continues. Returns how many frames were handled, and the replies used.
    pub(crate) fn poll_recv(&mut self, cx: &mut Context<'_>) -> (out: (
        Result<usize, ArqError<L::Error>>,
        Ghost<Replies<L::Error>>,
    ))
        requires
            old(self).wf(),
        ensures
            final(self).wf(),
            final(self).follows(old(self), out.1@),
            final(self).delivered() == old(self).delivered(),
            crate::replay::received(old(self)@, old(self).crc(), out.1@, final(self)@, out.0),
    {
        let mut processed: usize = 0;
        let ghost mut used: Replies<L::Error> = Replies::none();
        let ghost before = self@;
        let ghost crc = self.crc;
        proof {
            crate::replay::lemma_receiving_starts::<C, L::Error>(before, crc);
        }
        loop
            invariant
                self.wf(),
                self.follows(old(self), used),
                self.delivered() == old(self).delivered(),
                crc == old(self).crc(),
                before == old(self)@,
                crate::replay::receiving_at(before, crc, used, self@, processed),
            decreases usize::MAX - processed, MAX_FRAME - self@.inbox.len(),
        {
            proof {
                self.tx_fifo.lemma_bounded();
            }
            if self.tx_fifo.is_full() || processed == usize::MAX {
                proof {
                    crate::replay::lemma_received_early(
                        before,
                        crc,
                        used,
                        self@,
                        processed,
                        self@,
                        Ok(processed),
                    );
                }
                return (Ok(processed), Ghost(used));
            }
            if self.frame_len >= HDR_LEN {
                let total: usize = HDR_LEN + self.frame_buf[2] as usize;
                assert(total == crate::frame::announced_len(self@.inbox));
                if total > MAX_FRAME {
                    let ghost m = self@;
                    self.recv.framing = self.recv.framing.wrapping_add(1);
                    self.frame_len = 0;
                    proof {
                        assert(self@.inbox =~= Seq::<u8>::empty());
                        crate::replay::lemma_received_early(
                            before,
                            crc,
                            used,
                            m,
                            processed,
                            self@,
                            Err(ArqError::Framing),
                        );
                    }
                    return (Err(ArqError::Framing), Ghost(used));
                }
                if self.frame_len >= total {
                    let ghost m = self@;
                    let p = parse_frame(
                        &self.crc,
                        vstd::slice::slice_subrange(&self.frame_buf, 0, total),
                    );
                    proof {
                        assert(self.frame_buf@.subrange(0, total as int) =~= m.inbox.take(
                            total as int,
                        ));
                    }
                    shift_down(&mut self.frame_buf, total, self.frame_len);
                    self.frame_len -= total;
                    proof {
                        assert(self@ =~= m.without_first());
                    }
                    let read = self.handle_message(p);
                    let ghost seen = processed;
                    processed += 1;
                    proof {
                        crate::replay::lemma_receiving_frame(
                            before,
                            crc,
                            used,
                            m,
                            seen,
                            read@,
                            self@,
                        );
                        used = used.and(Replies::readings(read@));
                    }
                    continue ;
                }
            }
            let ghost m = self@;
            let at: usize = self.frame_len;
            let (_head, tail) = self.frame_buf.split_at_mut(at);
            let reply = self.ports.poll_read(cx, tail);
            let ghost filled = tail@;
            let ghost got = crate::lower::read_reply(reply, filled);
            let ghost event = LowerEvent::Read { room: filled.len(), got };
            let ghost then = used.and(Replies::call(event));
            proof {
                assert(self.frame_buf@.take(at as int) =~= m.inbox);
                assert(self.frame_buf@.skip(at as int) =~= filled);
                assert(self@ =~= m);
            }
            match reply {
                Poll::Pending => {
                    proof {
                        crate::replay::lemma_received(
                            before,
                            crc,
                            used,
                            m,
                            processed,
                            event,
                            got,
                            Ok(processed),
                        );
                    }
                    return (Ok(processed), Ghost(then));
                },
                Poll::Ready(Ok(n)) => {
                    if n == 0 {
                        proof {
                            crate::replay::lemma_received(
                                before,
                                crc,
                                used,
                                m,
                                processed,
                                event,
                                got,
                                Err(ArqError::Closed),
                            );
                        }
                        return (Err(ArqError::Closed), Ghost(then));
                    }
                    self.frame_len += n;
                    proof {
                        let bytes = self.frame_buf@.skip(at as int).take(n as int);
                        crate::replay::lemma_receiving_bytes(
                            before,
                            crc,
                            used,
                            m,
                            processed,
                            event,
                            bytes,
                        );
                        assert(self@.inbox =~= m.inbox + bytes);
                        assert(self@ =~= Endpoint { inbox: m.inbox + bytes, ..m });
                        used = then;
                    }
                },
                Poll::Ready(Err(e)) => {
                    proof {
                        crate::replay::lemma_received(
                            before,
                            crc,
                            used,
                            m,
                            processed,
                            event,
                            got,
                            Err(ArqError::Io(e)),
                        );
                    }
                    return (Err(ArqError::Io(e)), Ghost(then));
                },
            }
        }
    }

    /// Writes queued frames to the lower layer. Returns how many bytes were
    /// written, and the replies used. The bytes that the lower layer takes come off
    /// the front of what is queued, none of them twice, and nothing else changes.
    pub(crate) fn poll_drain(&mut self, cx: &mut Context<'_>) -> (out: (
        Result<usize, ArqError<L::Error>>,
        Ghost<Replies<L::Error>>,
    ))
        requires
            old(self).wf(),
        ensures
            final(self).wf(),
            final(self).follows(old(self), out.1@),
            final(self).delivered() == old(self).delivered(),
            crate::replay::drained(
                old(self)@,
                out.1@,
                final(self)@,
                bytes_of(out.0),
            ),
            final(self)@ == (Endpoint { wire: final(self)@.wire, ..old(self)@ }),
            crate::streams::on_wire(old(self)@) == crate::streams::bytes_taken(out.1@.io)
                + crate::streams::on_wire(final(self)@),
            out.0 matches Ok(n) ==> n == crate::streams::bytes_taken(out.1@.io).len(),
    {
        let (written, used) = self.write_frames(cx);
        proof {
            old(self).lemma_valid();
            crate::replay::lemma_drained_in_order(
                old(self)@,
                used@,
                self@,
                bytes_of(written),
            );
        }
        (written, used)
    }

    /// Offers the frames in line to the lower layer, one after the other.
    fn write_frames(&mut self, cx: &mut Context<'_>) -> (out: (
        Result<usize, ArqError<L::Error>>,
        Ghost<Replies<L::Error>>,
    ))
        requires
            old(self).wf(),
        ensures
            final(self).wf(),
            final(self).follows(old(self), out.1@),
            final(self).delivered() == old(self).delivered(),
            crate::replay::drained(
                old(self)@,
                out.1@,
                final(self)@,
                bytes_of(out.0),
            ),
    {
        let mut written: usize = 0;
        let ghost mut used: Replies<L::Error> = Replies::none();
        let ghost before = self@;
        proof {
            crate::replay::lemma_draining_starts::<L::Error>(before);
            self.tx_fifo.lemma_bounded();
        }
        loop
            invariant
                self.wf(),
                self.follows(old(self), used),
                self.delivered() == old(self).delivered(),
                before == old(self)@,
                crate::replay::draining_at(before, used, self@, written as nat),
                written + MAX_FRAME * self.tx_fifo@.len() <= MAX_FRAME * TX_FIFO,
            decreases self.tx_fifo@.len(),
        {
            let frame: Frame = match self.tx_fifo.front() {
                Some(f) => *f,
                None => {
                    proof {
                        crate::replay::lemma_drained_empty(before, used, self@, written as nat);
                    }
                    return (Ok(written), Ghost(used));
                },
            };
            let ghost m = self@;
            let ghost queue = self.tx_fifo@;
            let offered: &[u8] = vstd::slice::slice_subrange(&frame.data, self.tx_off, frame.len);
            proof {
                assert(offered@ =~= m.wire.first());
            }
            let reply = self.ports.poll_write(cx, offered);
            let ghost event = LowerEvent::Write { offered: offered@, taken: reply };
            let ghost then = used.and(Replies::call(event));
            proof {
                assert(self@ =~= m);
            }
            let n: usize = match reply {
                Poll::Pending => {
                    proof {
                        crate::replay::lemma_drained(
                            before,
                            used,
                            m,
                            written as nat,
                            event,
                            reply,
                            m,
                            Ok(written as nat),
                        );
                    }
                    return (Ok(written), Ghost(then));
                },
                Poll::Ready(Ok(n)) => n,
                Poll::Ready(Err(e)) => {
                    proof {
                        crate::replay::lemma_drained(
                            before,
                            used,
                            m,
                            written as nat,
                            event,
                            reply,
                            m,
                            Err(ArqError::Io(e)),
                        );
                    }
                    return (Err(ArqError::Io(e)), Ghost(then));
                },
            };
            if n == 0 {
                proof {
                    crate::replay::lemma_drained(
                        before,
                        used,
                        m,
                        written as nat,
                        event,
                        reply,
                        m,
                        Err(ArqError::Closed),
                    );
                }
                return (Err(ArqError::Closed), Ghost(then));
            }
            let ghost sent = written as nat;
            written += n;
            self.tx_off += n;
            if self.tx_off >= frame.len {
                self.tx_off = 0;
                let _ = self.tx_fifo.pop();
                proof {
                    assert(self@.wire =~= m.wire.drop_first()) by {
                        if queue.len() > 1 {
                            assert(queue[1]@.skip(0) =~= queue[1]@);
                        }
                    }
                    assert(self@ =~= m.wrote(n as nat));
                    crate::replay::lemma_draining_frame(before, used, m, sent, event, n);
                    used = then;
                }
            } else {
                proof {
                    assert(self@.wire =~= m.wire.update(0, m.wire.first().skip(n as int))) by {
                        assert(queue[0]@.skip(self.tx_off as int) =~= m.wire.first().skip(
                            n as int,
                        ));
                    }
                    assert(self@ =~= m.wrote(n as nat));
                    crate::replay::lemma_drained(
                        before,
                        used,
                        m,
                        sent,
                        event,
                        reply,
                        self@,
                        Ok(written as nat),
                    );
                }
                return (Ok(written), Ghost(then));
            }
        }
    }

    /// Hands over a received payload, if any, into the caller's buffer. The bytes
    /// come off the front of what was received.
    pub(crate) fn poll_deliver(&mut self, buf: &mut [u8])
        requires
            old(self).wf(),
            old(self).delivered() == 0,
        ensures
            final(self).wf(),
            final(self).follows(old(self), Replies::none()),
            final(self).lower() == old(self).lower(),
            final(self)@ == old(self)@.after_handing(old(buf)@.len()),
            crate::streams::unread(old(self)@) == final(buf)@.take(
                final(self).delivered() as int,
            ) + crate::streams::unread(final(self)@),
            final(self).delivered() == old(self)@.handed(old(buf)@.len()).len(),
            final(buf)@ == old(self)@.handed(old(buf)@.len()) + old(buf)@.skip(
                old(self)@.handed(old(buf)@.len()).len() as int,
            ),
    {
        let ghost m = self@;
        let ghost room = buf@.len();
        proof {
            crate::streams::law_reading_in_order(m, room);
        }
        if buf.is_empty() {
            proof {
                assert(buf@ =~= m.handed(room) + buf@.skip(0));
                assert(buf@.take(0) =~= m.handed(room));
            }
            return;
        }
        let (payload, off): (Payload, usize) = match self.delivering {
            Some(d) => (d.payload, d.off),
            None => match self.payload_rx.pop() {
                Some(p) => (p, 0),
                None => {
                    proof {
                        assert(buf@ =~= m.handed(room) + buf@.skip(0));
                        assert(buf@.take(0) =~= m.handed(room));
                        assert(self@ =~= m);
                    }
                    return;
                },
            },
        };
        proof {
            assert(payload@.skip(off as int) =~= m.readable());
            if m.partial.len() == 0 {
                assert(self@.incoming =~= m.incoming.drop_first());
            }
        }
        self.delivering = None;
        let left: usize = payload.len - off;
        let n: usize = if buf.len() < left {
            buf.len()
        } else {
            left
        };
        let bytes: &[u8] = vstd::slice::slice_subrange(&payload.data, off, off + n);
        proof {
            assert(bytes@ =~= m.handed(room));
        }
        copy_to(buf, 0, bytes);
        if off + n < payload.len {
            self.delivering = Some(Delivering { payload, off: off + n });
        }
        self.delivered = n;
        proof {
            assert(self@.partial =~= m.readable().skip(n as int));
            assert(self@ =~= m.after_handing(room));
            assert(buf@.take(n as int) =~= m.handed(room));
        }
    }

    /// Drives the machine as [`Arq::poll`] does. Returns its result, whether that is
    /// the end of the poll, and the replies used. It is not where more passes than
    /// can be counted made progress.
    #[verifier::rlimit(30)]
    fn drive(&mut self, cx: &mut Context<'_>, buf: &mut [u8]) -> (out: (
        Poll<Result<(), ArqError<L::Error>>>,
        bool,
        Ghost<Replies<L::Error>>,
    ))
        requires
            old(self).wf(),
        ensures
            final(self).wf(),
            final(self).follows(old(self), out.2@),
            final(self).delivered() <= old(buf)@.len(),
            final(buf)@.len() == old(buf)@.len(),
            final(buf)@.skip(final(self).delivered() as int) == old(buf)@.skip(
                final(self).delivered() as int,
            ),
            out.1 ==> crate::replay::was_polled(
                old(self)@,
                old(self).crc(),
                old(buf)@.len(),
                out.2@,
                final(self)@,
                Polled { result: out.0, bytes: final(buf)@.take(final(self).delivered() as int) },
            ),
            !out.1 ==> {
                &&& out.0 is Pending
                &&& final(self).delivered() == 0
                &&& out.2@.io.len() > u64::MAX
                &&& crate::replay::polling_at(
                    old(self)@,
                    old(self).crc(),
                    old(buf)@.len(),
                    out.2@,
                    final(self)@,
                )
            },
    {
        let ghost start = self@;
        let ghost crc = self.crc;
        let ghost room = buf@.len();
        let ghost mut used: Replies<L::Error> = Replies::none();
        let mut passes: u64 = u64::MAX;
        self.delivered = 0;
        proof {
            assert(self@ =~= start);
            crate::replay::lemma_polling_starts::<C, L::Error>(start, crc, room);
        }
        loop
            invariant
                self.wf(),
                self.follows(old(self), used),
                self.delivered() == 0,
                crc == old(self).crc(),
                start == old(self)@,
                room == old(buf)@.len(),
                buf@ == old(buf)@,
                crate::replay::polling_at(start, crc, room, used, self@),
                used.io.len() + passes >= u64::MAX,
            decreases passes,
        {
            let ghost now = self@;
            proof {
                self.lemma_valid();
            }
            let (received, recv_used) = self.poll_recv(cx);
            let ghost r = recv_used@;
            let frames_in: usize = match received {
                Ok(n) => n,
                Err(e) => {
                    proof {
                        crate::replay::lemma_polled_recv_error(
                            start,
                            crc,
                            room,
                            used,
                            now,
                            r,
                            self@,
                            e,
                        );
                        assert(buf@.take(0) =~= Seq::<u8>::empty());
                    }
                    return (Poll::Ready(Err(e)), true, Ghost(used.and(r)));
                },
            };
            let ghost m1 = self@;
            proof {
                self.lemma_valid();
            }
            let (gave_up, ticked) = self.do_what_is_due();
            let ghost clock = ticked@;
            let (drained, drain_used) = self.poll_drain(cx);
            let ghost d = drain_used@;
            let ghost all = used.and(crate::replay::pass(r, clock, d));
            let ghost m3 = self@;
            let bytes_out: usize = match drained {
                Ok(n) => n,
                Err(e) => {
                    proof {
                        crate::replay::lemma_polled_drain_error(
                            start,
                            crc,
                            room,
                            used,
                            now,
                            r,
                            m1,
                            frames_in,
                            clock,
                            d,
                            m3,
                            e,
                        );
                        assert(buf@.take(0) =~= Seq::<u8>::empty());
                    }
                    return (Poll::Ready(Err(e)), true, Ghost(all));
                },
            };
            self.poll_deliver(buf);
            proof {
                let k = m3.handed(room).len() as int;
                assert(buf@.take(k) =~= m3.handed(room));
                assert(buf@.skip(k) =~= old(buf)@.skip(k));
            }
            if self.delivered > 0 {
                proof {
                    crate::replay::lemma_polled(
                        start,
                        crc,
                        room,
                        used,
                        now,
                        r,
                        m1,
                        frames_in,
                        clock,
                        d,
                        m3,
                        bytes_out as nat,
                        Poll::Ready(Ok(())),
                    );
                }
                return (Poll::Ready(Ok(())), true, Ghost(all));
            }
            if gave_up {
                proof {
                    crate::replay::lemma_polled(
                        start,
                        crc,
                        room,
                        used,
                        now,
                        r,
                        m1,
                        frames_in,
                        clock,
                        d,
                        m3,
                        bytes_out as nat,
                        Poll::Ready(Err(ArqError::Timeout)),
                    );
                }
                return (Poll::Ready(Err(ArqError::Timeout)), true, Ghost(all));
            }
            // Keep going while this pass made progress or there is more to hand
            // over; otherwise the lower layer is pending and has registered a waker.
            let more: bool = buf.len() > 0 && !self.payload_rx.is_empty();
            if frames_in == 0 && bytes_out == 0 && !more {
                proof {
                    crate::replay::lemma_polled(
                        start,
                        crc,
                        room,
                        used,
                        now,
                        r,
                        m1,
                        frames_in,
                        clock,
                        d,
                        m3,
                        bytes_out as nat,
                        Poll::Pending,
                    );
                }
                return (Poll::Pending, true, Ghost(all));
            }
            proof {
                crate::replay::lemma_pass_calls(
                    now,
                    crc,
                    r,
                    m1,
                    frames_in,
                    clock,
                    d,
                    m3,
                    bytes_out as nat,
                );
                crate::replay::lemma_polling_goes_on(
                    start,
                    crc,
                    room,
                    used,
                    now,
                    r,
                    m1,
                    frames_in,
                    clock,
                    d,
                    m3,
                    bytes_out as nat,
                );
                assert(buf@ =~= old(buf)@);
                used = all;
            }
            if passes == 0 {
                return (Poll::Pending, false, Ghost(used));
            }
            passes -= 1;
        }
    }

    /// The single entry point for both reading and writing; reading, writing
    /// and flushing all come here. Received bytes go to the start of `buf`.
    ///
    /// A poll goes on as long as it makes progress. Only one in which the lower layer
    /// is called 2^64 times or more stops on the way: it is then pending although no
    /// waker is registered, and the next poll goes on from there. The same is true of
    /// reading, writing and flushing.
    pub fn poll(&mut self, cx: &mut Context<'_>, buf: &mut [u8]) -> (result: Poll<
        Result<(), ArqError<L::Error>>,
    >)
        requires
            old(self).wf(),
        ensures
            final(self).wf(),
            final(self).follows(old(self), final(self).heard_since(old(self))),
            final(self).heard_truly(old(self)),
            final(self).delivered() <= old(buf)@.len(),
            final(buf)@.len() == old(buf)@.len(),
            final(buf)@.skip(final(self).delivered() as int) == old(buf)@.skip(
                final(self).delivered() as int,
            ),
            ({
                let heard = final(self).heard_since(old(self));
                let room = old(buf)@.len();
                ||| old(self)@.polled(old(self).crc(), room, heard) == final(self)@.done(
                    Replies::<L::Error>::none(),
                    Polled { result, bytes: final(buf)@.take(final(self).delivered() as int) },
                )
                ||| old(self)@.polls_on(old(self).crc(), room, heard, final(self)@)
                    && result is Pending && final(self).delivered() == 0
            }),
    {
        let (result, finished, used) = self.drive(cx, buf);
        proof {
            self.lemma_heard_truly(old(self), used@);
            if finished {
                crate::replay::lemma_was_polled(
                    old(self)@,
                    old(self).crc(),
                    old(buf)@.len(),
                    used@,
                    self@,
                    Polled { result, bytes: buf@.take(self.delivered() as int) },
                );
            } else {
                crate::replay::lemma_polls_on(
                    old(self)@,
                    old(self).crc(),
                    old(buf)@.len(),
                    used@,
                    self@,
                );
            }
        }
        result
    }

    /// Drives the machine until bytes are available in `buf`, or it fails.
    pub fn poll_read(&mut self, cx: &mut Context<'_>, buf: &mut [u8]) -> (result: Poll<
        Result<usize, ArqError<L::Error>>,
    >)
        requires
            old(self).wf(),
        ensures
            final(self).wf(),
            final(self).follows(old(self), final(self).heard_since(old(self))),
            final(self).heard_truly(old(self)),
            result matches Poll::Ready(Ok(n)) ==> n <= old(buf)@.len() && (n > 0
                || old(buf)@.len() == 0),
            old(buf)@.len() == 0 ==> {
                &&& result == Poll::<Result<usize, ArqError<L::Error>>>::Ready(Ok(0))
                &&& final(self)@ == old(self)@
                &&& final(self).heard() == old(self).heard()
                &&& final(buf)@ == old(buf)@
            },
            old(buf)@.len() > 0 ==> {
                let heard = final(self).heard_since(old(self));
                let run = old(self)@.polled(old(self).crc(), old(buf)@.len(), heard);
                ||| {
                    &&& run.out matches Some(polled)
                    &&& run == final(self)@.done(Replies::<L::Error>::none(), polled)
                    &&& result == polled.read_result()
                    &&& final(buf)@ == polled.bytes + old(buf)@.skip(polled.bytes.len() as int)
                }
                ||| {
                    &&& old(self)@.polls_on(
                        old(self).crc(),
                        old(buf)@.len(),
                        heard,
                        final(self)@,
                    )
                    &&& result is Pending
                    &&& final(buf)@ == old(buf)@
                }
            },
    {
        if buf.is_empty() {
            proof {
                assert(self.heard() == self.heard().and(Replies::none()));
                self.lemma_heard_truly(old(self), Replies::none());
            }
            return Poll::Ready(Ok(0));
        }
        let (polled, finished, used) = self.drive(cx, buf);
        proof {
            self.lemma_heard_truly(old(self), used@);
            let out = Polled { result: polled, bytes: buf@.take(self.delivered() as int) };
            assert(out.bytes.len() == self.delivered());
            assert(buf@ =~= out.bytes + old(buf)@.skip(out.bytes.len() as int)) by {
                assert(buf@ =~= buf@.take(self.delivered() as int) + buf@.skip(
                    self.delivered() as int,
                ));
            }
            if finished {
                crate::replay::lemma_was_polled(
                    old(self)@,
                    old(self).crc(),
                    old(buf)@.len(),
                    used@,
                    self@,
                    out,
                );
                crate::laws::law_polled_bytes(
                    old(self)@,
                    old(self).crc(),
                    old(buf)@.len(),
                    used@,
                );
            } else {
                crate::replay::lemma_polls_on(
                    old(self)@,
                    old(self).crc(),
                    old(buf)@.len(),
                    used@,
                    self@,
                );
                assert(buf@.skip(0) =~= buf@ && old(buf)@.skip(0) =~= old(buf)@);
            }
        }
        match polled {
            Poll::Pending => Poll::Pending,
            Poll::Ready(Ok(())) => Poll::Ready(Ok(self.delivered)),
            Poll::Ready(Err(e)) => Poll::Ready(Err(e)),
        }
    }

    /// Takes bytes into the send path: staging is filled first, and whenever it
    /// is full it moves into the payload ring. Returns how many were taken.
    #[verifier::rlimit(30)]
    fn accept(&mut self, buf: &[u8]) -> (consumed: usize)
        requires
            old(self).wf(),
        ensures
            final(self).wf(),
            final(self).silently(old(self)),
            consumed == old(self)@.takes(buf@),
            final(self)@ == old(self)@.accepting(buf@),
    {
        let ghost m = self@;
        let ghost mut moved: nat = 0;
        let mut consumed: usize = 0;
        proof {
            self.lemma_valid();
            assert(m.staging + buf@.take(0) =~= m.staging);
            assert(m.staging.skip(0) =~= m.staging);
            assert(m.outgoing + chunks(m.staging, 0) =~= m.outgoing);
        }
        loop
            invariant
                self.wf(),
                self.silently(old(self)),
                m == old(self)@,
                m.valid(),
                consumed <= buf@.len(),
                self@ == (Endpoint {
                    outgoing: m.outgoing + chunks(m.staging + buf@.take(consumed as int), moved),
                    staging: (m.staging + buf@.take(consumed as int)).skip(251 * moved as int),
                    ..m
                }),
                251 * moved <= m.staging.len() + consumed,
                m.outgoing.len() + moved <= PAYLOAD_RING,
            ensures
                self@.staging.len() == MAX_PAYLOAD && m.outgoing.len() + moved == PAYLOAD_RING
                    || self@.staging.len() < MAX_PAYLOAD && consumed == buf@.len(),
            decreases buf@.len() - consumed, self@.staging.len(),
        {
            let ghost all = m.staging + buf@.take(consumed as int);
            let ghost queued = self@.outgoing;
            proof {
                self.payload_tx.lemma_bounded();
                assert(queued.len() == self.payload_tx@.len());
            }
            if self.staging.len == MAX_PAYLOAD {
                if self.payload_tx.push(self.staging) {
                    let ghost full = self.staging@;
                    self.staging = Payload::default();
                    proof {
                        assert(full =~= all.subrange(251 * moved as int, 251 * (moved as int + 1)));
                        assert(chunks(all, moved + 1) =~= chunks(all, moved).push(full));
                        assert(self@.outgoing =~= queued.push(full));
                        assert(queued.push(full) =~= m.outgoing + chunks(all, moved + 1));
                        assert(all.skip(251 * (moved as int + 1)) =~= Seq::<u8>::empty());
                        moved = moved + 1;
                    }
                } else {
                    break ;
                }
            }
            if consumed == buf.len() {
                break ;
            }
            let left: usize = buf.len() - consumed;
            let room: usize = MAX_PAYLOAD - self.staging.len;
            let n: usize = if left < room {
                left
            } else {
                room
            };
            let part: &[u8] = vstd::slice::slice_subrange(buf, consumed, consumed + n);
            let at: usize = self.staging.len;
            let ghost staged = self.staging@;
            copy_to(&mut self.staging.data, at, part);
            self.staging.len = at + n;
            proof {
                let more = m.staging + buf@.take(consumed + n);
                assert(self.staging@ =~= staged + part@);
                assert(more =~= all + part@);
                assert(more.skip(251 * moved as int) =~= staged + part@);
                assert forall|i: int| 0 <= i < moved implies #[trigger] chunks(more, moved)[i]
                    == chunks(all, moved)[i] by {
                    assert(more.subrange(251 * i, 251 * (i + 1)) =~= all.subrange(
                        251 * i,
                        251 * (i + 1),
                    ));
                }
                assert(chunks(more, moved) =~= chunks(all, moved));
                assert(self@ =~= Endpoint {
                    outgoing: m.outgoing + chunks(more, moved),
                    staging: more.skip(251 * moved as int),
                    ..m
                });
            }
            consumed += n;
            if self.staging.len < MAX_PAYLOAD {
                break ;
            }
        }
        proof {
            let all = m.staging + buf@.take(consumed as int);
            assert(all.len() == 251 * moved + self@.staging.len());
            assert(consumed == m.takes(buf@));
            assert(all == m.staged_with(buf@));
            assert(m.filled(buf@) == moved);
            assert(self@ =~= m.accepting(buf@));
        }
        consumed
    }

    /// Takes bytes into the send path, then drives the machine so that queued
    /// payloads make progress.
    pub fn poll_write(&mut self, cx: &mut Context<'_>, buf: &[u8]) -> (result: Poll<
        Result<usize, ArqError<L::Error>>,
    >)
        requires
            old(self).wf(),
        ensures
            final(self).wf(),
            final(self).follows(old(self), final(self).heard_since(old(self))),
            final(self).heard_truly(old(self)),
            ({
                let heard = final(self).heard_since(old(self));
                let start = old(self)@.accepting(buf@);
                let run = start.polled(old(self).crc(), 0, heard);
                ||| {
                    &&& run.out matches Some(polled)
                    &&& run == final(self)@.done(Replies::<L::Error>::none(), polled)
                    &&& result == old(self)@.write_result(buf@, polled.result)
                }
                ||| {
                    &&& start.polls_on(old(self).crc(), 0, heard, final(self)@)
                    &&& result == old(self)@.write_result::<L::Error>(buf@, Poll::Pending)
                }
            }),
    {
        let consumed: usize = self.accept(buf);
        let ghost mid = *self;
        let mut nothing: [u8; 0] = [];
        let (polled, finished, used) = self.drive(cx, &mut nothing);
        proof {
            self.lemma_heard_truly(old(self), used@);
            if finished {
                let out = Polled { result: polled, bytes: nothing@.take(self.delivered() as int) };
                crate::replay::lemma_was_polled(mid@, mid.crc(), 0, used@, self@, out);
            } else {
                crate::replay::lemma_polls_on(mid@, mid.crc(), 0, used@, self@);
            }
        }
        if let Poll::Ready(Err(e)) = polled {
            return Poll::Ready(Err(e));
        }
        if consumed == 0 && buf.len() > 0 {
            Poll::Pending
        } else {
            Poll::Ready(Ok(consumed))
        }
    }

    /// Pushes a partial staged payload, then drives the machine until everything
    /// is queued, sent, and acknowledged.
    pub fn poll_flush(&mut self, cx: &mut Context<'_>) -> (result: Poll<
        Result<(), ArqError<L::Error>>,
    >)
        requires
            old(self).wf(),
        ensures
            final(self).wf(),
            final(self).follows(old(self), final(self).heard_since(old(self))),
            final(self).heard_truly(old(self)),
            result matches Poll::Ready(Ok(())) ==> final(self)@.quiescent(),
            ({
                let heard = final(self).heard_since(old(self));
                ||| old(self)@.flushing(old(self).crc(), heard) == final(self)@.done(
                    Replies::<L::Error>::none(),
                    result,
                )
                ||| !old(self)@.pushing_out().quiescent() && old(self)@.pushing_out().polls_on(
                    old(self).crc(),
                    0,
                    heard,
                    final(self)@,
                ) && result is Pending
            }),
    {
        let ghost m = self@;
        proof {
            self.payload_tx.lemma_bounded();
        }
        if self.staging.len > 0 {
            if self.payload_tx.push(self.staging) {
                self.staging = Payload::default();
            }
        }
        proof {
            if m.staging.len() > 0 && m.outgoing.len() < PAYLOAD_RING {
                assert(self@.outgoing =~= m.outgoing.push(m.staging));
            }
            assert(self@ =~= m.pushing_out());
        }
        let ghost mut used: Replies<L::Error> = Replies::none();
        let ghost pushed = *self;
        if !self.quiescent() {
            let mut nothing: [u8; 0] = [];
            let (polled, finished, drive_used) = self.drive(cx, &mut nothing);
            proof {
                used = drive_used@;
                self.lemma_heard_truly(old(self), used);
                if finished {
                    let out = Polled {
                        result: polled,
                        bytes: nothing@.take(self.delivered() as int),
                    };
                    crate::replay::lemma_was_polled(pushed@, pushed.crc(), 0, used, self@, out);
                    crate::laws::law_polled_bytes(pushed@, pushed.crc(), 0, used);
                } else {
                    crate::replay::lemma_polls_on(pushed@, pushed.crc(), 0, used, self@);
                }
            }
            if !finished {
                return Poll::Pending;
            }
            match polled {
                Poll::Pending => {
                    // The machine may have drained to quiescent on this poll.
                    if !self.quiescent() {
                        return Poll::Pending;
                    }
                },
                Poll::Ready(r) => {
                    return Poll::Ready(r);
                },
            }
        }
        let ghost drained = *self;
        let reply = self.ports.poll_flush(cx);
        let result = match reply {
            Poll::Pending => Poll::Pending,
            Poll::Ready(Ok(())) => Poll::Ready(Ok(())),
            Poll::Ready(Err(e)) => Poll::Ready(Err(ArqError::Io(e))),
        };
        proof {
            let event = LowerEvent::Flush { flushed: reply };
            assert(self@ =~= drained@);
            self.lemma_heard_truly(old(self), used.and(Replies::call(event)));
            crate::replay::lemma_call_and(event, Replies::none());
            if !pushed@.quiescent() {
                reveal(crate::replay::was_polled);
            }
        }
        result
    }
}

/// The first `n` whole payloads of a run of bytes.
spec fn chunks(all: Seq<u8>, n: nat) -> Seq<Seq<u8>> {
    Seq::new(n, |i: int| all.subrange(251 * i, 251 * (i + 1)))
}

/// Moves the bytes `from..to` to the start of `buf`.
fn shift_down(buf: &mut [u8], from: usize, to: usize)
    requires
        from <= to <= old(buf)@.len(),
    ensures
        final(buf)@.len() == old(buf)@.len(),
        final(buf)@.take(to - from) == old(buf)@.subrange(from as int, to as int),
{
    let mut i: usize = 0;
    while i < to - from
        invariant
            from <= to <= old(buf)@.len(),
            i <= to - from,
            buf@.len() == old(buf)@.len(),
            forall|k: int| 0 <= k < i ==> buf@[k] == old(buf)@[from + k],
            forall|k: int| i <= k < buf@.len() ==> buf@[k] == old(buf)@[k],
        decreases to - from - i,
    {
        buf[i] = buf[from + i];
        i += 1;
    }
    proof {
        assert(buf@.take(to - from) =~= old(buf)@.subrange(from as int, to as int));
    }
}

} // verus!
