//! Two ends of a link, and the frames in transit between them.
//!
//! Frames in transit may be lost or damaged and take any time, but do not
//! overtake each other. The laws at the end say what the link is for: the payloads
//! that one end sends, the other end gets, each exactly once and in order, as long
//! as neither end starts over and the sender gives up on no payload that has not
//! arrived.

use crate::crc::Crc;
use crate::endpoint::Endpoint;
use crate::frame::{
    Message, MAX_PAYLOAD, MSG_TYPE_ACK, MSG_TYPE_DAT, MSG_TYPE_NAK, MSG_TYPE_RYN, MSG_TYPE_SYN,
};
use crate::lifetime::Call;
use crate::line::Side;
use crate::steps::Step;
use crate::time::Instant;
use vstd::prelude::*;

verus! {

/// A sender `a` and a receiver `b`. Both are whole ends of a link, so `b` may
/// send payloads to `a` as well; what is followed here are those of `a`.
#[verifier::ext_equal]
pub struct Session {
    pub a: Endpoint,
    pub b: Endpoint,
    /// Frames in transit from `a` to `b`, oldest first; the first of them may be in
    /// the inbox of `b`, whole or in part.
    pub ab: Seq<Seq<u8>>,
    /// Frames in transit from `b` to `a`, likewise.
    pub ba: Seq<Seq<u8>>,
    /// What the lower layer at `a` has taken of the first frame in line.
    pub part_a: Seq<u8>,
    /// What the lower layer at `b` has taken of the first frame in line.
    pub part_b: Seq<u8>,
    /// The id of the first payload.
    pub first: u8,
    /// The payloads that `a` took from its queue to send, in order.
    pub sent: Seq<Seq<u8>>,
    /// The payloads that `b` queued for its reader, in order.
    pub got: Seq<Seq<u8>>,
    /// The bytes that `a` took from its writer.
    pub written: Seq<u8>,
    /// The bytes that `b` handed to its reader.
    pub read: Seq<u8>,
}

/// Something that happens in a session.
pub enum Happening {
    /// An end makes a step.
    AtA { step: Step },
    AtB { step: Step },
    /// A frame in transit is lost.
    LoseAb { i: int },
    LoseBa { i: int },
    /// A frame in transit is changed other than in its length, and no longer passes
    /// its checksum.
    DamageAb { i: int, frame: Seq<u8> },
    DamageBa { i: int, frame: Seq<u8> },
}

/// An intact frame of type `ty`.
pub open spec fn intact_of<C: Crc>(crc: C, f: Seq<u8>, ty: u8) -> bool {
    crate::frame::message_in(crc, f).intact && crate::frame::message_in(crc, f).ty == ty
}

/// The id that a frame bears.
pub open spec fn id_of<C: Crc>(crc: C, f: Seq<u8>) -> u8 {
    crate::frame::message_in(crc, f).id
}

/// The id of payload `k` where payload 0 has the id `first`.
pub open spec fn id_at(first: u8, k: int) -> u8 {
    ((first + k) % 256) as u8
}

impl Session {
    /// `a` and the line on either side of it.
    pub open spec fn side_a(self) -> Side {
        Side { m: self.a, incoming: self.ba, outgoing: self.ab, part: self.part_a }
    }

    /// `b` and the line on either side of it.
    pub open spec fn side_b(self) -> Side {
        Side { m: self.b, incoming: self.ab, outgoing: self.ba, part: self.part_b }
    }

    /// What `h` makes of the session.
    pub open spec fn after<C: Crc>(self, crc: C, h: Happening) -> Session {
        match h {
            Happening::AtA { step } => {
                let side = self.side_a().after(crc, step);
                let t = crate::steps::step_tally(self.a, crc, step);
                Session {
                    a: side.m,
                    ba: side.incoming,
                    ab: side.outgoing,
                    part_a: side.part,
                    sent: self.sent + t.sent,
                    written: self.written + t.accepted,
                    ..self
                }
            },
            Happening::AtB { step } => {
                let side = self.side_b().after(crc, step);
                let t = crate::steps::step_tally(self.b, crc, step);
                Session {
                    b: side.m,
                    ab: side.incoming,
                    ba: side.outgoing,
                    part_b: side.part,
                    got: self.got + t.got,
                    read: self.read + t.handed,
                    ..self
                }
            },
            Happening::LoseAb { i } => Session { ab: self.ab.remove(i), ..self },
            Happening::LoseBa { i } => Session { ba: self.ba.remove(i), ..self },
            Happening::DamageAb { i, frame } => Session { ab: self.ab.update(i, frame), ..self },
            Happening::DamageBa { i, frame } => Session { ba: self.ba.update(i, frame), ..self },
        }
    }

    /// `h` can happen: an end can make the step, and only frames of which nothing has
    /// been read yet are lost or damaged.
    pub open spec fn can<C: Crc>(self, crc: C, h: Happening) -> bool {
        match h {
            Happening::AtA { step } => self.side_a().can(step),
            Happening::AtB { step } => self.side_b().can(step),
            Happening::LoseAb { i } => 0 <= i < self.ab.len() && crate::line::untouched(
                self.ab,
                i,
                self.b.inbox,
            ),
            Happening::LoseBa { i } => 0 <= i < self.ba.len() && crate::line::untouched(
                self.ba,
                i,
                self.a.inbox,
            ),
            Happening::DamageAb { i, frame } => 0 <= i < self.ab.len() && crate::line::untouched(
                self.ab,
                i,
                self.b.inbox,
            ) && crate::line::sized(frame) && !crate::frame::message_in(crc, frame).intact,
            Happening::DamageBa { i, frame } => 0 <= i < self.ba.len() && crate::line::untouched(
                self.ba,
                i,
                self.a.inbox,
            ) && crate::line::sized(frame) && !crate::frame::message_in(crc, frame).intact,
        }
    }

    /// The payload in flight has arrived, and no ACK of an earlier one is still on
    /// its way.
    pub open spec fn can_give_up<C: Crc>(self, crc: C) -> bool {
        &&& self.got.len() == self.sent.len()
        &&& forall|i: int|
            0 <= i < self.to_a().len() && intact_of(crc, #[trigger] self.to_a()[i], MSG_TYPE_ACK)
                ==> self.a.awaits(id_of(crc, self.to_a()[i]))
    }

    /// `h` is what breaks a session: the sender gives up on a payload too soon.
    pub open spec fn breaks<C: Crc>(self, crc: C, h: Happening) -> bool {
        h matches Happening::AtA { step: Step::Ticked { clock } } && self.a.gives_up(clock)
            && !self.can_give_up(crc)
    }

    /// The frames on their way to `b`, oldest first, in transit or in line.
    pub open spec fn to_b(self) -> Seq<Seq<u8>> {
        self.ab + crate::line::in_line(self.part_a, self.a.wire)
    }

    /// The frames on their way to `a`, oldest first, in transit or in line.
    pub open spec fn to_a(self) -> Seq<Seq<u8>> {
        self.ba + crate::line::in_line(self.part_b, self.b.wire)
    }

    /// Both ends have synced and are in step, nothing of what went before is still
    /// on its way, and `b`'s reader has read all there was. `a`'s writer may have
    /// written before.
    pub open spec fn starts(self) -> bool {
        &&& self.a.valid() && self.b.valid()
        &&& self.a.state is Idle
        &&& !(self.b.state is Syncing)
        &&& crate::endpoint::next_id(self.b.recv_pkt_id) == self.a.next_pkt_id
        &&& self.first == self.a.next_pkt_id
        &&& self.sent.len() == 0 && self.got.len() == 0
        &&& self.to_b().len() == 0 && self.part_a.len() == 0 && self.b.inbox.len() == 0
        &&& self.to_a().len() == 0 && self.part_b.len() == 0 && self.a.inbox.len() == 0
        &&& self.written == crate::streams::unsent(self.a)
        &&& self.read.len() == 0 && crate::streams::unread(self.b).len() == 0
    }

    /// What was sent was got, in order and once; at most the payload in flight
    /// is still to come, and nothing is while nothing is in flight.
    pub open spec fn exactly_once(self) -> bool {
        &&& self.got.len() <= self.sent.len() <= self.got.len() + 1
        &&& self.got == self.sent.take(self.got.len() as int)
        &&& self.a.state is Idle ==> self.got == self.sent
        &&& self.got.len() < self.sent.len() ==> self.a.pending == Some(self.sent.last())
    }

    /// What was read is what was written, as far as it has come; and once `a` has
    /// sent all of it and `b`'s reader has read all there is, it is the whole.
    pub open spec fn same_bytes(self) -> bool {
        &&& self.read.is_prefix_of(self.written)
        &&& self.a.quiescent() && crate::streams::unread(self.b).len() == 0 ==> self.read
            == self.written
    }
}

// ---- the invariant ----

/// What is on its way to the receiver, of which `g` payloads arrived so far: DAT
/// frames carry the payload in flight, or, ahead of those and only until it has
/// arrived, the one before it.
#[verifier::opaque]
spec fn data_ok<C: Crc>(
    crc: C,
    frames: Seq<Seq<u8>>,
    first: u8,
    sent: Seq<Seq<u8>>,
    g: nat,
) -> bool {
    let n = sent.len() as int;
    &&& forall|i: int| 0 <= i < frames.len() ==> crate::line::sized(#[trigger] frames[i])
    &&& forall|i: int|
        0 <= i < frames.len() ==> !intact_of(crc, #[trigger] frames[i], MSG_TYPE_SYN)
            && !intact_of(crc, frames[i], MSG_TYPE_RYN)
    &&& forall|i: int|
        0 <= i < frames.len() && intact_of(crc, #[trigger] frames[i], MSG_TYPE_DAT) ==> {
            let msg = crate::frame::message_in(crc, frames[i]);
            ||| n >= 1 && msg.id == id_at(first, n - 1) && msg.payload == sent[n - 1]
            ||| n >= 2 && g == n - 1 && msg.id == id_at(first, n - 2) && msg.payload == sent[n - 2]
        }
    &&& forall|i: int, j: int|
        0 <= i < j < frames.len() && intact_of(crc, #[trigger] frames[i], MSG_TYPE_DAT)
            && intact_of(crc, #[trigger] frames[j], MSG_TYPE_DAT) && id_of(crc, frames[j])
            == id_at(first, n - 2) ==> id_of(crc, frames[i]) == id_at(first, n - 2)
}

/// What is on its way to the sender: ACK frames are for the payload in flight
/// once it has arrived, or, ahead of those, for the one before it; while nothing
/// is in flight all are for the last one.
#[verifier::opaque]
spec fn acks_ok<C: Crc>(crc: C, frames: Seq<Seq<u8>>, first: u8, n: int, g: int, idle: bool) -> bool {
    &&& forall|i: int| 0 <= i < frames.len() ==> crate::line::sized(#[trigger] frames[i])
    &&& forall|i: int|
        0 <= i < frames.len() ==> !intact_of(crc, #[trigger] frames[i], MSG_TYPE_SYN)
            && !intact_of(crc, frames[i], MSG_TYPE_RYN)
    &&& forall|i: int|
        0 <= i < frames.len() && intact_of(crc, #[trigger] frames[i], MSG_TYPE_ACK) ==> {
            let id = id_of(crc, frames[i]);
            ||| id == id_at(first, n - 1) && g == n
            ||| id == id_at(first, n - 2) && !idle
        }
    &&& forall|i: int, j: int|
        0 <= i < j < frames.len() && intact_of(crc, #[trigger] frames[i], MSG_TYPE_ACK)
            && intact_of(crc, #[trigger] frames[j], MSG_TYPE_ACK) && id_of(crc, frames[j])
            == id_at(first, n - 2) ==> id_of(crc, frames[i]) == id_at(first, n - 2)
}

spec fn holds<C: Crc>(crc: C, s: Session) -> bool {
    let n = s.sent.len() as int;
    let g = s.got.len() as int;
    &&& s.a.valid() && s.b.valid()
    &&& !(s.a.state is Syncing) && !(s.b.state is Syncing)
    &&& g <= n <= g + 1
    &&& s.got == s.sent.take(g)
    &&& s.a.next_pkt_id == id_at(s.first, n)
    &&& s.b.recv_pkt_id == id_at(s.first, g - 1)
    &&& s.a.state is AwaitingAck ==> n >= 1 && s.a.awaits(id_at(s.first, n - 1)) && s.a.pending
        == Some(s.sent[n - 1])
    &&& s.a.state is Idle ==> g == n
    &&& s.a.wire.len() == 0 ==> s.part_a.len() == 0
    &&& s.b.wire.len() == 0 ==> s.part_b.len() == 0
    &&& s.a.inbox.is_prefix_of(s.ba.flatten())
    &&& s.b.inbox.is_prefix_of(s.ab.flatten())
    &&& data_ok(crc, s.to_b(), s.first, s.sent, s.got.len())
    &&& acks_ok(crc, s.to_a(), s.first, n, g, s.a.state is Idle)
}

/// Both ends are in step with the frames in transit.
proof fn lemma_sides_in_step<C: Crc>(s: Session, crc: C)
    requires
        holds(crc, s),
    ensures
        s.side_a().in_step(),
        s.side_b().in_step(),
{
    reveal(data_ok);
    reveal(acks_ok);
    assert forall|i: int| 0 <= i < s.ab.len() implies crate::line::sized(#[trigger] s.ab[i]) by {
        assert(s.ab[i] == s.to_b()[i]);
    }
    assert forall|i: int| 0 <= i < s.ba.len() implies crate::line::sized(#[trigger] s.ba[i]) by {
        assert(s.ba[i] == s.to_a()[i]);
    }
}

proof fn lemma_ids(first: u8, k: int)
    ensures
        crate::endpoint::next_id(id_at(first, k)) == id_at(first, k + 1),
        id_at(first, k) != id_at(first, k + 1),
{
}

/// Frames taken out of the middle, and frames damaged, keep the order of the
/// others.
proof fn lemma_data_thinned<C: Crc>(
    crc: C,
    frames: Seq<Seq<u8>>,
    first: u8,
    sent: Seq<Seq<u8>>,
    g: nat,
    i: int,
    damaged: Seq<u8>,
)
    requires
        data_ok(crc, frames, first, sent, g),
        0 <= i < frames.len(),
    ensures
        data_ok(crc, frames.remove(i), first, sent, g),
        crate::line::sized(damaged) && !crate::frame::message_in(crc, damaged).intact ==> data_ok(
            crc,
            frames.update(i, damaged),
            first,
            sent,
            g,
        ),
{
    reveal(data_ok);
    let thin = frames.remove(i);
    assert forall|k: int| 0 <= k < thin.len() implies #[trigger] thin[k] == frames[if k < i {
        k
    } else {
        k + 1
    }] by {}
}

proof fn lemma_acks_thinned<C: Crc>(
    crc: C,
    frames: Seq<Seq<u8>>,
    first: u8,
    n: int,
    g: int,
    idle: bool,
    i: int,
    damaged: Seq<u8>,
)
    requires
        acks_ok(crc, frames, first, n, g, idle),
        0 <= i < frames.len(),
    ensures
        acks_ok(crc, frames.remove(i), first, n, g, idle),
        crate::line::sized(damaged) && !crate::frame::message_in(crc, damaged).intact ==> acks_ok(
            crc,
            frames.update(i, damaged),
            first,
            n,
            g,
            idle,
        ),
{
    reveal(acks_ok);
    let thin = frames.remove(i);
    assert forall|k: int| 0 <= k < thin.len() implies #[trigger] thin[k] == frames[if k < i {
        k
    } else {
        k + 1
    }] by {}
}

/// A frame for the receiver is queued: the payload in flight, or no DAT at all.
proof fn lemma_data_push<C: Crc>(
    crc: C,
    frames: Seq<Seq<u8>>,
    first: u8,
    sent: Seq<Seq<u8>>,
    g: nat,
    f: Seq<u8>,
)
    requires
        data_ok(crc, frames, first, sent, g),
        crate::line::sized(f),
        !intact_of(crc, f, MSG_TYPE_SYN) && !intact_of(crc, f, MSG_TYPE_RYN),
        intact_of(crc, f, MSG_TYPE_DAT) ==> sent.len() >= 1 && id_of(crc, f) == id_at(
            first,
            sent.len() - 1,
        ) && crate::frame::message_in(crc, f).payload == sent.last(),
    ensures
        data_ok(crc, frames.push(f), first, sent, g),
{
    reveal(data_ok);
    lemma_ids(first, sent.len() - 2);
}

/// A new payload is sent once the one before it has arrived.
proof fn lemma_data_new<C: Crc>(
    crc: C,
    frames: Seq<Seq<u8>>,
    first: u8,
    sent: Seq<Seq<u8>>,
    payload: Seq<u8>,
    f: Seq<u8>,
)
    requires
        data_ok(crc, frames, first, sent, sent.len()),
        crate::line::sized(f),
        crate::frame::message_in(crc, f) == (Message {
            ty: MSG_TYPE_DAT,
            id: id_at(first, sent.len() as int),
            payload,
            intact: true,
        }),
    ensures
        data_ok(crc, frames.push(f), first, sent.push(payload), sent.len()),
{
    reveal(data_ok);
    lemma_ids(first, sent.len() - 1);
}

/// The payload in flight arrives.
proof fn lemma_data_arrives<C: Crc>(
    crc: C,
    frames: Seq<Seq<u8>>,
    first: u8,
    sent: Seq<Seq<u8>>,
)
    requires
        sent.len() >= 1,
        frames.len() > 0,
        data_ok(crc, frames, first, sent, (sent.len() - 1) as nat),
        intact_of(crc, frames.first(), MSG_TYPE_DAT),
        id_of(crc, frames.first()) == id_at(first, sent.len() - 1),
    ensures
        crate::frame::message_in(crc, frames.first()).payload == sent.last(),
        data_ok(crc, frames.drop_first(), first, sent, sent.len()),
{
    reveal(data_ok);
    let n = sent.len() as int;
    lemma_ids(first, n - 2);
    let rest = frames.drop_first();
    assert(frames.first() == frames[0]);
    assert forall|k: int| 0 <= k < rest.len() implies #[trigger] rest[k] == frames[k + 1] by {}
    assert forall|k: int|
        0 <= k < rest.len() && intact_of(crc, #[trigger] rest[k], MSG_TYPE_DAT) implies id_of(
        crc,
        rest[k],
    ) != id_at(first, n - 2) by {
        assert(rest[k] == frames[k + 1]);
    }
}

/// A frame for the sender is queued: an ACK that is due, or no ACK at all.
proof fn lemma_acks_push<C: Crc>(
    crc: C,
    frames: Seq<Seq<u8>>,
    first: u8,
    n: int,
    g: int,
    idle: bool,
    f: Seq<u8>,
)
    requires
        acks_ok(crc, frames, first, n, g, idle),
        g <= n,
        crate::line::sized(f),
        !intact_of(crc, f, MSG_TYPE_SYN) && !intact_of(crc, f, MSG_TYPE_RYN),
        intact_of(crc, f, MSG_TYPE_ACK) ==> (id_of(crc, f) == id_at(first, n - 1) && g == n) || (
        id_of(crc, f) == id_at(first, n - 2) && g == n - 1 && !idle),
    ensures
        acks_ok(crc, frames.push(f), first, n, g, idle),
{
    reveal(acks_ok);
    lemma_ids(first, n - 2);
}

/// The payload in flight has arrived, so that it can be acknowledged.
proof fn lemma_acks_arrived<C: Crc>(crc: C, frames: Seq<Seq<u8>>, first: u8, n: int)
    requires
        acks_ok(crc, frames, first, n, n - 1, false),
    ensures
        acks_ok(crc, frames, first, n, n, false),
{
    reveal(acks_ok);
}

/// The ACK of the payload in flight arrives.
proof fn lemma_acks_complete<C: Crc>(crc: C, frames: Seq<Seq<u8>>, first: u8, n: int, g: int)
    requires
        acks_ok(crc, frames, first, n, g, false),
        frames.len() > 0,
        intact_of(crc, frames.first(), MSG_TYPE_ACK),
        id_of(crc, frames.first()) == id_at(first, n - 1),
    ensures
        g == n,
        acks_ok(crc, frames.drop_first(), first, n, n, true),
{
    reveal(acks_ok);
    lemma_ids(first, n - 2);
    let rest = frames.drop_first();
    assert(frames.first() == frames[0]);
    assert forall|k: int| 0 <= k < rest.len() implies #[trigger] rest[k] == frames[k + 1] by {}
}

/// A new payload is sent: the ACKs under way are for the one before it.
proof fn lemma_acks_new<C: Crc>(crc: C, frames: Seq<Seq<u8>>, first: u8, n: int)
    requires
        acks_ok(crc, frames, first, n, n, true),
    ensures
        acks_ok(crc, frames, first, n + 1, n, false),
{
    reveal(acks_ok);
    lemma_ids(first, n - 1);
}

// ---- every step keeps it ----

proof fn lemma_control_frame<C: Crc>(crc: C, ty: u8, id: u8)
    requires
        crate::crc::crc_lawful(crc),
    ensures
        crate::line::sized(crate::frame::ctl_bytes(crc, ty, id)),
        crate::frame::message_in(crc, crate::frame::ctl_bytes(crc, ty, id)).intact,
        crate::frame::message_in(crc, crate::frame::ctl_bytes(crc, ty, id)).ty == ty,
        crate::frame::message_in(crc, crate::frame::ctl_bytes(crc, ty, id)).id == id,
{
    crate::frame::law_ctl_round_trip(crc, ty, id);
}

proof fn lemma_dat_frame<C: Crc>(crc: C, id: u8, payload: Seq<u8>)
    requires
        crate::crc::crc_lawful(crc),
        payload.len() <= MAX_PAYLOAD,
    ensures
        crate::line::sized(crate::frame::dat_bytes(crc, id, payload)),
        crate::frame::message_in(crc, crate::frame::dat_bytes(crc, id, payload)) == (Message {
            ty: MSG_TYPE_DAT,
            id,
            payload,
            intact: true,
        }),
{
    crate::frame::law_dat_round_trip(crc, id, payload);
}

/// A frame that an end queues is the last on its way.
proof fn lemma_queued(transit: Seq<Seq<u8>>, part: Seq<u8>, wire: Seq<Seq<u8>>, f: Seq<u8>)
    requires
        wire.len() == 0 ==> part.len() == 0,
    ensures
        transit + crate::line::in_line(part, wire.push(f)) == (transit + crate::line::in_line(part, wire)).push(f),
{
    if wire.len() == 0 {
        assert(part + f =~= f);
    }
    assert(transit + crate::line::in_line(part, wire.push(f)) =~= (transit + crate::line::in_line(part, wire)).push(f));
}

/// Bytes that the lower layer takes leave the frames on their way as they are.
proof fn lemma_written(transit: Seq<Seq<u8>>, part: Seq<u8>, m: Endpoint, n: nat)
    requires
        m.wire.len() > 0,
        n <= m.wire.first().len(),
    ensures
        ({
            let first = m.wire.first();
            let wire = m.wrote(n).wire;
            if n < first.len() {
                transit + crate::line::in_line(part + first.take(n as int), wire) == transit + crate::line::in_line(
                    part,
                    m.wire,
                )
            } else {
                transit.push(part + first) + crate::line::in_line(Seq::empty(), wire) == transit + crate::line::in_line(
                    part,
                    m.wire,
                )
            }
        }),
{
    let first = m.wire.first();
    let wire = m.wrote(n).wire;
    if n < first.len() {
        assert((part + first.take(n as int)) + first.skip(n as int) =~= part + first);
        assert(crate::line::in_line(part + first.take(n as int), wire) =~= crate::line::in_line(part, m.wire));
    } else {
        if wire.len() > 0 {
            assert(Seq::<u8>::empty() + wire.first() =~= wire.first());
        }
        assert(transit.push(part + first) + crate::line::in_line(Seq::empty(), wire) =~= transit + crate::line::in_line(
            part,
            m.wire,
        ));
    }
}

/// The frame that arrives was the first on its way.
proof fn lemma_arrived(transit: Seq<Seq<u8>>, line: Seq<Seq<u8>>)
    requires
        transit.len() > 0,
    ensures
        transit.drop_first() + line == (transit + line).remove(0),
        transit.drop_first() + line == (transit + line).drop_first(),
        (transit + line).first() == transit.first(),
{
    assert(transit.drop_first() + line =~= (transit + line).remove(0));
    assert(transit.drop_first() + line =~= (transit + line).drop_first());
}

/// Frames in transit are lost or damaged.
proof fn lemma_mishap<C: Crc>(s: Session, crc: C, h: Happening)
    requires
        holds(crc, s),
        s.can(crc, h),
        !(h is AtA) && !(h is AtB),
    ensures
        holds(crc, s.after(crc, h)),
{
    let next = s.after(crc, h);
    let n = s.sent.len() as int;
    let g = s.got.len() as int;
    let idle = s.a.state is Idle;
    match h {
        Happening::LoseAb { i } => {
            lemma_data_thinned(crc, s.to_b(), s.first, s.sent, s.got.len(), i, Seq::empty());
            assert(next.to_b() =~= s.to_b().remove(i));
            crate::line::lemma_untouched(s.b.inbox, s.ab, i, Seq::empty());
        },
        Happening::LoseBa { i } => {
            lemma_acks_thinned(crc, s.to_a(), s.first, n, g, idle, i, Seq::empty());
            assert(next.to_a() =~= s.to_a().remove(i));
            crate::line::lemma_untouched(s.a.inbox, s.ba, i, Seq::empty());
        },
        Happening::DamageAb { i, frame } => {
            lemma_data_thinned(crc, s.to_b(), s.first, s.sent, s.got.len(), i, frame);
            assert(next.to_b() =~= s.to_b().update(i, frame));
            crate::line::lemma_untouched(s.b.inbox, s.ab, i, frame);
        },
        Happening::DamageBa { i, frame } => {
            lemma_acks_thinned(crc, s.to_a(), s.first, n, g, idle, i, frame);
            assert(next.to_a() =~= s.to_a().update(i, frame));
            crate::line::lemma_untouched(s.a.inbox, s.ba, i, frame);
        },
        _ => {},
    }
}

/// The lower layer at either end takes bytes.
proof fn lemma_wrote<C: Crc>(s: Session, crc: C, h: Happening)
    requires
        holds(crc, s),
        s.can(crc, h),
        h matches Happening::AtA { step } ==> step is Wrote,
        h matches Happening::AtB { step } ==> step is Wrote,
        h is AtA || h is AtB,
    ensures
        holds(crc, s.after(crc, h)),
{
    let next = s.after(crc, h);
    match h {
        Happening::AtA { step: Step::Wrote { n } } => {
            lemma_written(s.ab, s.part_a, s.a, n);
            crate::laws::law_writing_keeps_valid(s.a, n);
            crate::line::lemma_transit_grows(s.b.inbox, s.ab, s.part_a + s.a.wire.first());
            assert(next.sent =~= s.sent);
        },
        Happening::AtB { step: Step::Wrote { n } } => {
            lemma_written(s.ba, s.part_b, s.b, n);
            crate::laws::law_writing_keeps_valid(s.b, n);
            crate::line::lemma_transit_grows(s.a.inbox, s.ba, s.part_b + s.b.wire.first());
            assert(next.got =~= s.got);
        },
        _ => {},
    }
}

/// The sender sends a payload for the first time or again, or gives up on it.
proof fn lemma_tick_a<C: Crc>(s: Session, crc: C, clock: Seq<Instant>)
    requires
        crate::crc::crc_lawful(crc),
        holds(crc, s),
        !s.breaks(crc, Happening::AtA { step: Step::Ticked { clock } }),
    ensures
        holds(crc, s.after(crc, Happening::AtA { step: Step::Ticked { clock } })),
{
    let next = s.after(crc, Happening::AtA { step: Step::Ticked { clock } });
    let n = s.sent.len() as int;
    crate::laws::law_time_keeps_valid(s.a, crc, clock);
    lemma_ids(s.first, n);
    if s.a.can_send() {
        let payload = s.a.outgoing.first();
        assert(payload == s.a.outgoing[0]);
        let f = crate::frame::dat_bytes(crc, s.a.next_pkt_id, payload);
        lemma_dat_frame(crc, s.a.next_pkt_id, payload);
        lemma_queued(s.ab, s.part_a, s.a.wire, f);
        lemma_data_new(crc, s.to_b(), s.first, s.sent, payload, f);
        lemma_acks_new(crc, s.to_a(), s.first, n);
        assert(next.sent =~= s.sent.push(payload));
        assert(next.sent.take(s.got.len() as int) =~= s.sent.take(s.got.len() as int));
    } else {
        assert(next.sent =~= s.sent);
        if s.a.gives_up(clock) {
            assert(acks_ok(crc, s.to_a(), s.first, n, n, true)) by {
                reveal(acks_ok);
            }
        } else if s.a.state is AwaitingAck && s.a.ticked(crc, clock).wire != s.a.wire {
            lemma_resend_a(s, crc, clock[1]);
        }
    }
}

/// The sender sends the payload in flight once more.
proof fn lemma_resend_a<C: Crc>(s: Session, crc: C, now: Instant)
    requires
        crate::crc::crc_lawful(crc),
        holds(crc, s),
        s.a.can_resend(),
    ensures
        data_ok(
            crc,
            s.ab + crate::line::in_line(s.part_a, s.a.resent(crc, now).wire),
            s.first,
            s.sent,
            s.got.len(),
        ),
{
    let n = s.sent.len() as int;
    let id = id_at(s.first, n - 1);
    let f = crate::frame::dat_bytes(crc, id, s.sent[n - 1]);
    lemma_dat_frame(crc, id, s.sent[n - 1]);
    lemma_queued(s.ab, s.part_a, s.a.wire, f);
    lemma_data_push(crc, s.to_b(), s.first, s.sent, s.got.len(), f);
}

/// The receiver sends payloads of its own, which are nothing to `a`'s.
proof fn lemma_tick_b<C: Crc>(s: Session, crc: C, clock: Seq<Instant>)
    requires
        crate::crc::crc_lawful(crc),
        holds(crc, s),
    ensures
        holds(crc, s.after(crc, Happening::AtB { step: Step::Ticked { clock } })),
{
    let n = s.sent.len() as int;
    let g = s.got.len() as int;
    let next = s.after(crc, Happening::AtB { step: Step::Ticked { clock } });
    crate::laws::law_time_keeps_valid(s.b, crc, clock);
    assert(next.got =~= s.got);
    let t = s.b.ticked(crc, clock);
    if s.b.can_send() {
        assert(s.b.outgoing.first() == s.b.outgoing[0]);
        lemma_dat_frame(crc, s.b.next_pkt_id, s.b.outgoing.first());
    } else if s.b.state is AwaitingAck {
        lemma_dat_frame(crc, s.b.state->pending_id, s.b.pending->0);
    }
    if t.wire != s.b.wire {
        let f = t.wire.last();
        assert(t.wire =~= s.b.wire.push(f));
        lemma_queued(s.ba, s.part_b, s.b.wire, f);
        lemma_acks_push(crc, s.to_a(), s.first, n, g, s.a.state is Idle, f);
    }
}

/// Bytes come in, or the upper layer reads, writes or flushes.
proof fn lemma_quiet<C: Crc>(s: Session, crc: C, h: Happening, step: Step)
    requires
        holds(crc, s),
        s.can(crc, h),
        h == (Happening::AtA { step }) || h == (Happening::AtB { step }),
        step is Given || step is Handed || step is Accepted || step is PushedOut,
    ensures
        holds(crc, s.after(crc, h)),
{
    let next = s.after(crc, h);
    lemma_sides_in_step(s, crc);
    if h is AtA {
        crate::steps::lemma_step_keeps_valid(s.a, crc, step);
        crate::line::lemma_side_step(s.side_a(), crc, step);
        assert(next.sent =~= s.sent);
    } else {
        crate::steps::lemma_step_keeps_valid(s.b, crc, step);
        crate::line::lemma_side_step(s.side_b(), crc, step);
        assert(next.got =~= s.got);
    }
}

/// A frame that arrives at the receiver.
#[verifier::rlimit(20)]
proof fn lemma_arrive_at_b<C: Crc>(s: Session, crc: C, now: Instant)
    requires
        crate::crc::crc_lawful(crc),
        holds(crc, s),
        s.can(crc, Happening::AtB { step: Step::Handled { now } }),
    ensures
        holds(crc, s.after(crc, Happening::AtB { step: Step::Handled { now } })),
{
    let step = Step::Handled { now };
    let next = s.after(crc, Happening::AtB { step });
    let n = s.sent.len() as int;
    let g = s.got.len() as int;
    let idle = s.a.state is Idle;
    lemma_sides_in_step(s, crc);
    crate::line::lemma_side_step(s.side_b(), crc, step);
    crate::steps::lemma_step_keeps_valid(s.b, crc, step);
    let f = s.ab.first();
    let msg = crate::frame::message_in(crc, f);
    let b1 = s.b.without_first();
    lemma_arrived(s.ab, crate::line::in_line(s.part_a, s.a.wire));
    lemma_data_thinned(crc, s.to_b(), s.first, s.sent, s.got.len(), 0, Seq::empty());
    assert(f == s.to_b()[0]);
    lemma_control_frame(crc, MSG_TYPE_ACK, msg.id);
    lemma_control_frame(crc, MSG_TYPE_NAK, msg.id);
    if s.b.state is AwaitingAck {
        lemma_dat_frame(crc, s.b.state->pending_id, s.b.pending->0);
    }
    lemma_ids(s.first, n - 1);
    lemma_ids(s.first, n - 2);
    lemma_ids(s.first, g - 1);
    assert(!intact_of(crc, f, MSG_TYPE_SYN) && !intact_of(crc, f, MSG_TYPE_RYN)) by {
        reveal(data_ok);
    }
    let taken = intact_of(crc, f, MSG_TYPE_DAT) && msg.id == crate::endpoint::next_id(
        s.b.recv_pkt_id,
    ) && s.b.incoming.len() < crate::endpoint::PAYLOAD_RING;
    if intact_of(crc, f, MSG_TYPE_DAT) {
        assert(msg.id == id_at(s.first, n - 1) || (g == n - 1 && msg.id == id_at(s.first, n - 2)))
            by {
            reveal(data_ok);
        }
        assert(n >= 1) by {
            reveal(data_ok);
        }
    }
    crate::laws::law_only_expected_is_taken(b1, crc, msg, now);
    if taken {
        lemma_data_arrives(crc, s.to_b(), s.first, s.sent);
        lemma_acks_arrived(crc, s.to_a(), s.first, n);
        assert(next.got =~= s.got.push(msg.payload));
        assert(next.got =~= s.sent.take(n));
    } else {
        assert(next.got =~= s.got);
    }
    if next.b.wire != s.b.wire {
        let reply = next.b.wire.last();
        assert(next.b.wire =~= s.b.wire.push(reply));
        lemma_queued(s.ba, s.part_b, s.b.wire, reply);
        lemma_acks_push(crc, s.to_a(), s.first, n, next.got.len() as int, idle, reply);
    }
}

/// A frame that arrives at the sender.
#[verifier::rlimit(20)]
proof fn lemma_arrive_at_a<C: Crc>(s: Session, crc: C, now: Instant)
    requires
        crate::crc::crc_lawful(crc),
        holds(crc, s),
        s.can(crc, Happening::AtA { step: Step::Handled { now } }),
    ensures
        holds(crc, s.after(crc, Happening::AtA { step: Step::Handled { now } })),
{
    let step = Step::Handled { now };
    let next = s.after(crc, Happening::AtA { step });
    let n = s.sent.len() as int;
    let g = s.got.len() as int;
    let idle = s.a.state is Idle;
    lemma_sides_in_step(s, crc);
    crate::line::lemma_side_step(s.side_a(), crc, step);
    crate::steps::lemma_step_keeps_valid(s.a, crc, step);
    let f = s.ba.first();
    let msg = crate::frame::message_in(crc, f);
    lemma_arrived(s.ba, crate::line::in_line(s.part_b, s.b.wire));
    lemma_acks_thinned(crc, s.to_a(), s.first, n, g, idle, 0, Seq::empty());
    assert(f == s.to_a()[0]);
    assert(!intact_of(crc, f, MSG_TYPE_SYN) && !intact_of(crc, f, MSG_TYPE_RYN)) by {
        reveal(acks_ok);
    }
    assert(next.sent =~= s.sent);
    lemma_control_frame(crc, MSG_TYPE_ACK, msg.id);
    lemma_control_frame(crc, MSG_TYPE_NAK, msg.id);
    if intact_of(crc, f, MSG_TYPE_ACK) && s.a.awaits(msg.id) {
        lemma_acks_complete(crc, s.to_a(), s.first, n, g);
    } else if s.a.reads_clock(msg) {
        lemma_resend_a(s, crc, now);
        assert(next.a.wire == s.a.resent(crc, now).wire);
    } else if next.a.wire != s.a.wire {
        let reply = next.a.wire.last();
        assert(next.a.wire =~= s.a.wire.push(reply));
        lemma_queued(s.ab, s.part_a, s.a.wire, reply);
        lemma_data_push(crc, s.to_b(), s.first, s.sent, s.got.len(), reply);
    }
}

proof fn lemma_step<C: Crc>(s: Session, crc: C, h: Happening)
    requires
        crate::crc::crc_lawful(crc),
        holds(crc, s),
        s.can(crc, h),
        !s.breaks(crc, h),
    ensures
        holds(crc, s.after(crc, h)),
{
    match h {
        Happening::AtA { step } => match step {
            Step::Ticked { clock } => lemma_tick_a(s, crc, clock),
            Step::Handled { now } => lemma_arrive_at_a(s, crc, now),
            Step::Wrote { .. } => lemma_wrote(s, crc, h),
            Step::Dropped => {
                lemma_sides_in_step(s, crc);
                crate::line::lemma_side_step(s.side_a(), crc, step);
            },
            _ => lemma_quiet(s, crc, h, step),
        },
        Happening::AtB { step } => match step {
            Step::Ticked { clock } => lemma_tick_b(s, crc, clock),
            Step::Handled { now } => lemma_arrive_at_b(s, crc, now),
            Step::Wrote { .. } => lemma_wrote(s, crc, h),
            Step::Dropped => {
                lemma_sides_in_step(s, crc);
                crate::line::lemma_side_step(s.side_b(), crc, step);
            },
            _ => lemma_quiet(s, crc, h, step),
        },
        _ => lemma_mishap(s, crc, h),
    }
}

// ---- the laws ----

/// The session that starts as `s` and in which `hs` happen one after the other.
pub open spec fn played<C: Crc>(s: Session, crc: C, hs: Seq<Happening>) -> Session
    decreases hs.len(),
{
    if hs.len() == 0 {
        s
    } else {
        played(s, crc, hs.drop_last()).after(crc, hs.last())
    }
}

/// Each of `hs` can happen when its turn comes.
pub open spec fn possible<C: Crc>(s: Session, crc: C, hs: Seq<Happening>) -> bool
    decreases hs.len(),
{
    hs.len() > 0 ==> possible(s, crc, hs.drop_last()) && played(s, crc, hs.drop_last()).can(
        crc,
        hs.last(),
    )
}

/// None of `hs` breaks the session when its turn comes.
pub open spec fn unbroken<C: Crc>(s: Session, crc: C, hs: Seq<Happening>) -> bool
    decreases hs.len(),
{
    hs.len() > 0 ==> unbroken(s, crc, hs.drop_last()) && !played(s, crc, hs.drop_last()).breaks(
        crc,
        hs.last(),
    )
}

proof fn lemma_played_on<C: Crc>(s: Session, crc: C, a: Seq<Happening>, b: Seq<Happening>)
    ensures
        played(s, crc, a + b) == played(played(s, crc, a), crc, b),
        possible(s, crc, a + b) == (possible(s, crc, a) && possible(played(s, crc, a), crc, b)),
        unbroken(s, crc, a + b) == (unbroken(s, crc, a) && unbroken(played(s, crc, a), crc, b)),
    decreases b.len(),
{
    if b.len() == 0 {
        assert(a + b =~= a);
    } else {
        lemma_played_on(s, crc, a, b.drop_last());
        assert((a + b).drop_last() =~= a + b.drop_last());
        assert((a + b).last() == b.last());
    }
}

proof fn lemma_played<C: Crc>(s: Session, crc: C, hs: Seq<Happening>)
    requires
        crate::crc::crc_lawful(crc),
        s.starts(),
        possible(s, crc, hs),
        unbroken(s, crc, hs),
    ensures
        holds(crc, played(s, crc, hs)),
    decreases hs.len(),
{
    if hs.len() == 0 {
        lemma_ids(s.first, -1);
        assert(data_ok(crc, s.to_b(), s.first, s.sent, 0)) by {
            reveal(data_ok);
        }
        assert(acks_ok(crc, s.to_a(), s.first, 0, 0, true)) by {
            reveal(acks_ok);
        }
        assert(s.got =~= s.sent.take(0));
        assert(s.a.inbox =~= s.ba.flatten().take(0));
        assert(s.b.inbox =~= s.ab.flatten().take(0));
    } else {
        lemma_played(s, crc, hs.drop_last());
        lemma_step(played(s, crc, hs.drop_last()), crc, hs.last());
    }
}

/// Payloads cross the link exactly once and in order: whatever is lost, damaged or
/// delayed, and however the two ends take turns, what `b` got is what `a` sent, up
/// to the payload in flight; and once `a` has nothing in flight, `b` got all of it.
pub proof fn law_exactly_once_in_order<C: Crc>(s: Session, crc: C, hs: Seq<Happening>)
    requires
        crate::crc::crc_lawful(crc),
        s.starts(),
        possible(s, crc, hs),
        unbroken(s, crc, hs),
    ensures
        played(s, crc, hs).exactly_once(),
        played(s, crc, hs).a.valid(),
        played(s, crc, hs).b.valid(),
{
    lemma_played(s, crc, hs);
    let end = played(s, crc, hs);
    if end.got.len() == end.sent.len() {
        assert(end.got =~= end.sent);
    }
}

// ---- bytes ----

/// What was written has been sent or is still to be sent; what was got has been
/// read or is still to be read.
spec fn accounted(s: Session) -> bool {
    &&& s.written == s.sent.flatten() + crate::streams::unsent(s.a)
    &&& s.got.flatten() == s.read + crate::streams::unread(s.b)
}

proof fn lemma_step_accounted<C: Crc>(s: Session, crc: C, h: Happening)
    requires
        s.a.valid() && s.b.valid(),
        accounted(s),
        s.can(crc, h),
    ensures
        accounted(s.after(crc, h)),
{
    let next = s.after(crc, h);
    match h {
        Happening::AtA { step } => {
            let t = crate::steps::step_tally(s.a, crc, step);
            crate::streams::lemma_step_payloads(s.a, crc, step);
            vstd::seq_lib::lemma_flatten_concat(s.sent, t.sent);
            let old = crate::streams::unsent(s.a);
            let new = crate::streams::unsent(next.a);
            assert((s.sent.flatten() + old) + t.accepted =~= s.sent.flatten() + (old
                + t.accepted));
            assert(s.sent.flatten() + (t.sent.flatten() + new) =~= (s.sent.flatten()
                + t.sent.flatten()) + new);
        },
        Happening::AtB { step } => {
            let t = crate::steps::step_tally(s.b, crc, step);
            crate::streams::lemma_step_payloads(s.b, crc, step);
            vstd::seq_lib::lemma_flatten_concat(s.got, t.got);
            let old = crate::streams::unread(s.b);
            let new = crate::streams::unread(next.b);
            assert((s.read + old) + t.got.flatten() =~= s.read + (old + t.got.flatten()));
            assert(s.read + (t.handed + new) =~= (s.read + t.handed) + new);
        },
        _ => {},
    }
}

proof fn lemma_played_accounted<C: Crc>(s: Session, crc: C, hs: Seq<Happening>)
    requires
        crate::crc::crc_lawful(crc),
        s.starts(),
        possible(s, crc, hs),
        unbroken(s, crc, hs),
    ensures
        accounted(played(s, crc, hs)),
    decreases hs.len(),
{
    if hs.len() == 0 {
        assert(s.sent =~= Seq::empty());
        assert(s.got =~= Seq::empty());
        assert(s.sent.flatten() + crate::streams::unsent(s.a) =~= crate::streams::unsent(s.a));
        assert(s.read + crate::streams::unread(s.b) =~= Seq::<u8>::empty());
    } else {
        lemma_played(s, crc, hs.drop_last());
        lemma_played_accounted(s, crc, hs.drop_last());
        lemma_step_accounted(played(s, crc, hs.drop_last()), crc, hs.last());
    }
}

proof fn lemma_same_bytes(s: Session)
    requires
        s.exactly_once(),
        accounted(s),
    ensures
        s.same_bytes(),
{
    let unread = crate::streams::unread(s.b);
    let rest = s.sent.skip(s.got.len() as int);
    vstd::seq_lib::lemma_flatten_concat(s.got, rest);
    assert(s.got + rest =~= s.sent);
    assert(s.written =~= s.read + (unread + (rest.flatten() + crate::streams::unsent(s.a))));
    if s.a.quiescent() && unread.len() == 0 {
        assert(s.a.outgoing =~= Seq::empty());
        assert(s.read =~= s.written);
    }
}

/// The link is a reliable byte stream: whatever is lost, damaged or delayed, the
/// bytes that `b`'s reader reads are the bytes that `a`'s writer wrote, in order,
/// none missing and none twice; and once `a` is flushed and all has been read,
/// they are all of them.
pub proof fn law_bytes_cross_in_order<C: Crc>(s: Session, crc: C, hs: Seq<Happening>)
    requires
        crate::crc::crc_lawful(crc),
        s.starts(),
        possible(s, crc, hs),
        unbroken(s, crc, hs),
    ensures
        played(s, crc, hs).same_bytes(),
{
    law_exactly_once_in_order(s, crc, hs);
    lemma_played_accounted(s, crc, hs);
    lemma_same_bytes(played(s, crc, hs));
}

// ---- calls of the machine ----

/// Steps that `a` makes.
pub open spec fn at_a(steps: Seq<Step>) -> Seq<Happening> {
    steps.map_values(|step: Step| Happening::AtA { step })
}

/// Steps that `b` makes.
pub open spec fn at_b(steps: Seq<Step>) -> Seq<Happening> {
    steps.map_values(|step: Step| Happening::AtB { step })
}

/// What `a` does on the line happens in the session.
proof fn lemma_played_at_a<C: Crc>(s: Session, crc: C, steps: Seq<Step>)
    requires
        s.side_a().can_walk(crc, steps),
    ensures
        possible(s, crc, at_a(steps)),
        played(s, crc, at_a(steps)).side_a() == s.side_a().walked(crc, steps),
        played(s, crc, at_a(steps)).b == s.b,
    decreases steps.len(),
{
    if steps.len() > 0 {
        lemma_played_at_a(s, crc, steps.drop_last());
        assert(at_a(steps).drop_last() =~= at_a(steps.drop_last()));
        assert(at_a(steps).last() == Happening::AtA { step: steps.last() });
    }
}

/// What `b` does on the line happens in the session, and never breaks it.
proof fn lemma_played_at_b<C: Crc>(s: Session, crc: C, steps: Seq<Step>)
    requires
        s.side_b().can_walk(crc, steps),
    ensures
        possible(s, crc, at_b(steps)),
        unbroken(s, crc, at_b(steps)),
        played(s, crc, at_b(steps)).side_b() == s.side_b().walked(crc, steps),
        played(s, crc, at_b(steps)).a == s.a,
    decreases steps.len(),
{
    if steps.len() > 0 {
        lemma_played_at_b(s, crc, steps.drop_last());
        assert(at_b(steps).drop_last() =~= at_b(steps.drop_last()));
        assert(at_b(steps).last() == Happening::AtB { step: steps.last() });
    }
}

/// A call of the machine at `a` is a part of the session: after `hs`, the machine is
/// called, and what the lower layer gives it is what is in transit. Then the steps of
/// the call can happen one after the other and lead `a` to the state that the call
/// leaves; and unless one of them gives up on a payload too soon, payloads and bytes
/// cross as ever.
pub proof fn law_call_of_a_is_played<C: Crc, E>(
    s: Session,
    crc: C,
    hs: Seq<Happening>,
    call: Call<E>,
)
    requires
        crate::crc::crc_lawful(crc),
        s.starts(),
        possible(s, crc, hs),
        unbroken(s, crc, hs),
        crate::lifetime::answered(played(s, crc, hs).a, crc, call),
        (played(s, crc, hs).a.inbox + crate::streams::bytes_given(call.replies().io)).is_prefix_of(
            played(s, crc, hs).ba.flatten(),
        ),
    ensures
        ({
            let now = played(s, crc, hs);
            let more = at_a(crate::lifetime::call_steps(now.a, crc, call));
            let end = played(s, crc, hs + more);
            &&& possible(s, crc, hs + more)
            &&& end == played(now, crc, more)
            &&& end.a == crate::lifetime::called(now.a, crc, call)
            &&& end.b == now.b
            &&& unbroken(now, crc, more) ==> end.exactly_once() && end.same_bytes()
        }),
{
    let now = played(s, crc, hs);
    let steps = crate::lifetime::call_steps(now.a, crc, call);
    let more = at_a(steps);
    lemma_played(s, crc, hs);
    lemma_sides_in_step(now, crc);
    crate::lifetime::law_call_is_steps(now.a, crc, call);
    crate::line::law_steps_on_the_line(now.side_a(), crc, steps);
    lemma_played_at_a(now, crc, steps);
    lemma_played_on(s, crc, hs, more);
    assert(played(now, crc, more).side_a().m == played(now, crc, more).a);
    if unbroken(now, crc, more) {
        law_exactly_once_in_order(s, crc, hs + more);
        law_bytes_cross_in_order(s, crc, hs + more);
    }
}

/// The same of a call of the machine at `b`, whose steps never break the session.
pub proof fn law_call_of_b_is_played<C: Crc, E>(
    s: Session,
    crc: C,
    hs: Seq<Happening>,
    call: Call<E>,
)
    requires
        crate::crc::crc_lawful(crc),
        s.starts(),
        possible(s, crc, hs),
        unbroken(s, crc, hs),
        crate::lifetime::answered(played(s, crc, hs).b, crc, call),
        (played(s, crc, hs).b.inbox + crate::streams::bytes_given(call.replies().io)).is_prefix_of(
            played(s, crc, hs).ab.flatten(),
        ),
    ensures
        ({
            let now = played(s, crc, hs);
            let more = at_b(crate::lifetime::call_steps(now.b, crc, call));
            let end = played(s, crc, hs + more);
            &&& possible(s, crc, hs + more)
            &&& unbroken(s, crc, hs + more)
            &&& end.b == crate::lifetime::called(now.b, crc, call)
            &&& end.a == now.a
            &&& end.exactly_once()
            &&& end.same_bytes()
        }),
{
    let now = played(s, crc, hs);
    let steps = crate::lifetime::call_steps(now.b, crc, call);
    let more = at_b(steps);
    lemma_played(s, crc, hs);
    lemma_sides_in_step(now, crc);
    crate::lifetime::law_call_is_steps(now.b, crc, call);
    crate::line::law_steps_on_the_line(now.side_b(), crc, steps);
    lemma_played_at_b(now, crc, steps);
    lemma_played_on(s, crc, hs, more);
    assert(played(now, crc, more).side_b().m == played(now, crc, more).b);
    law_exactly_once_in_order(s, crc, hs + more);
    law_bytes_cross_in_order(s, crc, hs + more);
}

/// Two ends that are syncing on a clear line are in step once each has the
/// other's RYN, so that a session starts, with either of them as the sender.
pub proof fn law_handshake_starts_session<C: Crc>(a: Endpoint, b: Endpoint, crc: C, now: Instant)
    requires
        crate::crc::crc_lawful(crc),
        a.valid() && b.valid(),
        a.state is Syncing && b.state is Syncing,
        a.wire.len() == 0 && b.wire.len() == 0,
        a.inbox.len() == 0 && b.inbox.len() == 0,
        crate::streams::unread(b).len() == 0,
    ensures
        ({
            let to_a = crate::frame::ctl_bytes(crc, MSG_TYPE_RYN, b.next_pkt_id);
            let to_b = crate::frame::ctl_bytes(crc, MSG_TYPE_RYN, a.next_pkt_id);
            Session {
                a: a.on_message(crc, crate::frame::message_in(crc, to_a), now),
                b: b.on_message(crc, crate::frame::message_in(crc, to_b), now),
                ab: Seq::empty(),
                ba: Seq::empty(),
                part_a: Seq::empty(),
                part_b: Seq::empty(),
                first: a.next_pkt_id,
                sent: Seq::empty(),
                got: Seq::empty(),
                written: crate::streams::unsent(a),
                read: Seq::empty(),
            }.starts()
        }),
{
    lemma_control_frame(crc, MSG_TYPE_RYN, a.next_pkt_id);
    lemma_control_frame(crc, MSG_TYPE_RYN, b.next_pkt_id);
}

} // verus!
