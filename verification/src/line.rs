//! One end of a link and the line on either side of it.
//!
//! Frames are in transit as wholes, but the lower layer takes and gives bytes: of a
//! frame that is being written only a part has been taken, and the first frames in
//! transit to an end may already be in its inbox, whole or in part.

use crate::crc::Crc;
use crate::endpoint::Endpoint;
use crate::frame::{HDR_LEN, MAX_FRAME};
use crate::steps::Step;
use vstd::prelude::*;

verus! {

/// A frame of a size that frames have, which is the size that it announces.
pub open spec fn sized(f: Seq<u8>) -> bool {
    HDR_LEN <= f.len() <= MAX_FRAME && crate::frame::announced_len(f) == f.len()
}

/// The same of several frames.
pub open spec fn all_sized(frames: Seq<Seq<u8>>) -> bool {
    forall|i: int| 0 <= i < frames.len() ==> sized(#[trigger] frames[i])
}

/// The frames in line, of the first of which `part` is written already.
pub open spec fn in_line(part: Seq<u8>, wire: Seq<Seq<u8>>) -> Seq<Seq<u8>> {
    if wire.len() == 0 {
        wire
    } else {
        wire.update(0, part + wire.first())
    }
}

/// Of frame `i` in transit nothing is in the inbox yet.
pub open spec fn untouched(frames: Seq<Seq<u8>>, i: int, inbox: Seq<u8>) -> bool {
    inbox.len() <= frames.take(i).flatten().len()
}

/// One end, and the frames in transit to it and from it, oldest first. The first of
/// those to it may be in its inbox, whole or in part.
#[verifier::ext_equal]
pub struct Side {
    pub m: Endpoint,
    pub incoming: Seq<Seq<u8>>,
    pub outgoing: Seq<Seq<u8>>,
    /// What the lower layer has taken of the first frame in line.
    pub part: Seq<u8>,
}

impl Side {
    /// What a step leaves: a frame goes into transit with its last byte, and is out
    /// of it once it is handled.
    pub open spec fn after<C: Crc>(self, crc: C, step: Step) -> Side {
        let m = self.m.stepped(crc, step);
        match step {
            Step::Handled { .. } => Side { m, incoming: self.incoming.drop_first(), ..self },
            Step::Wrote { n } => if n < self.m.wire.first().len() {
                Side { m, part: self.part + self.m.wire.first().take(n as int), ..self }
            } else {
                Side {
                    m,
                    part: Seq::empty(),
                    outgoing: self.outgoing.push(self.part + self.m.wire.first()),
                    ..self
                }
            },
            _ => Side { m, ..self },
        }
    }

    /// The step can be made, and bytes that are given are the next ones in transit.
    pub open spec fn can(self, step: Step) -> bool {
        &&& self.m.can(step)
        &&& step matches Step::Given { bytes } ==> (self.m.inbox + bytes).is_prefix_of(
            self.incoming.flatten(),
        )
    }

    /// What steps leave, one after the other.
    pub open spec fn walked<C: Crc>(self, crc: C, steps: Seq<Step>) -> Side
        decreases steps.len(),
    {
        if steps.len() == 0 {
            self
        } else {
            self.walked(crc, steps.drop_last()).after(crc, steps.last())
        }
    }

    /// Each step can be made when its turn comes.
    pub open spec fn can_walk<C: Crc>(self, crc: C, steps: Seq<Step>) -> bool
        decreases steps.len(),
    {
        steps.len() > 0 ==> self.can_walk(crc, steps.drop_last()) && self.walked(
            crc,
            steps.drop_last(),
        ).can(steps.last())
    }

    /// The frames in transit to this end are of a size that frames have, and the
    /// inbox holds the first bytes of them.
    pub open spec fn in_step(self) -> bool {
        &&& all_sized(self.incoming)
        &&& self.m.inbox.is_prefix_of(self.incoming.flatten())
    }
}

/// The first frame in transit is the first in the inbox, once it is there as a
/// whole; and an inbox that holds bytes of sized frames never starts with one that
/// is too long.
pub proof fn lemma_first_frame(m: Endpoint, frames: Seq<Seq<u8>>)
    requires
        all_sized(frames),
        m.inbox.is_prefix_of(frames.flatten()),
    ensures
        !m.oversized(),
        m.frame_ready() ==> {
            &&& frames.len() > 0
            &&& m.inbox.take(crate::frame::announced_len(m.inbox)) == frames.first()
            &&& m.inbox == frames.first() + m.without_first().inbox
            &&& m.without_first().inbox.is_prefix_of(frames.drop_first().flatten())
        },
{
    let inbox = m.inbox;
    if inbox.len() >= HDR_LEN {
        if frames.len() == 0 {
            assert(frames =~= Seq::empty());
            assert(frames.flatten().len() == 0);
        }
        let f = frames.first();
        let rest = frames.drop_first().flatten();
        assert(f == frames[0]);
        assert(frames.flatten() == f + rest);
        assert(inbox[2] == frames.flatten()[2]);
        assert(inbox[2] == f[2]);
        if m.frame_ready() {
            assert(inbox.take(f.len() as int) =~= f);
            assert(inbox =~= f + inbox.skip(f.len() as int));
            assert forall|i: int| 0 <= i < inbox.len() - f.len() implies inbox.skip(
                f.len() as int,
            )[i] == rest[i] by {
                assert(inbox[f.len() + i] == frames.flatten()[f.len() + i]);
            }
            assert(inbox.skip(f.len() as int) =~= rest.take(inbox.len() - f.len()));
        }
    }
}

/// A frame that goes into transit is the last.
pub proof fn lemma_transit_grows(inbox: Seq<u8>, frames: Seq<Seq<u8>>, f: Seq<u8>)
    requires
        inbox.is_prefix_of(frames.flatten()),
    ensures
        inbox.is_prefix_of(frames.push(f).flatten()),
{
    frames.lemma_flatten_push(f);
    assert((frames.flatten() + f).take(inbox.len() as int) =~= frames.flatten().take(
        inbox.len() as int,
    ));
}

/// What happens to an untouched frame is nothing to the inbox.
pub proof fn lemma_untouched(inbox: Seq<u8>, frames: Seq<Seq<u8>>, i: int, f: Seq<u8>)
    requires
        inbox.is_prefix_of(frames.flatten()),
        0 <= i < frames.len(),
        untouched(frames, i, inbox),
    ensures
        inbox.is_prefix_of(frames.remove(i).flatten()),
        inbox.is_prefix_of(frames.update(i, f).flatten()),
{
    let head = frames.take(i);
    vstd::seq_lib::lemma_flatten_concat(head, frames.skip(i));
    vstd::seq_lib::lemma_flatten_concat(head, frames.skip(i + 1));
    vstd::seq_lib::lemma_flatten_concat(head, frames.update(i, f).skip(i));
    assert(head + frames.skip(i) =~= frames);
    assert(head + frames.skip(i + 1) =~= frames.remove(i));
    assert(head + frames.update(i, f).skip(i) =~= frames.update(i, f));
    let n = inbox.len() as int;
    assert(inbox =~= head.flatten().take(n)) by {
        assert(frames.flatten().take(n) =~= head.flatten().take(n));
    }
    assert(frames.remove(i).flatten().take(n) =~= head.flatten().take(n));
    assert(frames.update(i, f).flatten().take(n) =~= head.flatten().take(n));
}

/// A step keeps the inbox in step with the frames in transit.
pub proof fn lemma_side_step<C: Crc>(p: Side, crc: C, step: Step)
    requires
        p.in_step(),
        p.can(step),
    ensures
        p.after(crc, step).in_step(),
        !(step is Dropped),
        step is Handled ==> p.incoming.len() > 0 && p.m.first_message(crc)
            == crate::frame::message_in(crc, p.incoming.first()) && p.m.inbox
            == p.incoming.first() + p.after(crc, step).m.inbox,
        !(step is Handled) && !(step is Given) ==> p.after(crc, step).m.inbox == p.m.inbox,
{
    lemma_first_frame(p.m, p.incoming);
    if let Step::Handled { now } = step {
        crate::laws::lemma_inbox_apart(
            p.m.without_first(),
            crc,
            p.m.first_message(crc),
            now,
            Seq::empty(),
        );
        let rest = p.incoming.drop_first();
        assert forall|i: int| 0 <= i < rest.len() implies sized(#[trigger] rest[i]) by {
            assert(rest[i] == p.incoming[i + 1]);
        }
    }
}

/// After steps that lead from `p` to `q`: `h` frames were handled, and the bytes of
/// these and those in the inbox are those that were there and `given`; and what went
/// into transit is `taken`.
spec fn reached(p: Side, q: Side, given: Seq<u8>, taken: Seq<u8>, h: int) -> bool {
    &&& q.in_step()
    &&& 0 <= h <= p.incoming.len()
    &&& q.incoming == p.incoming.skip(h)
    &&& p.m.inbox + given == p.incoming.take(h).flatten() + q.m.inbox
    &&& q.outgoing.flatten() + q.part == p.outgoing.flatten() + p.part + taken
}

/// The bytes that a step is given are the next ones in transit.
proof fn lemma_can_on_line(
    p: Side,
    q: Side,
    step: Step,
    given: Seq<u8>,
    taken: Seq<u8>,
    h: int,
    bytes: Seq<u8>,
    more: Seq<u8>,
)
    requires
        reached(p, q, given, taken, h),
        q.m.can(step),
        step matches Step::Given { bytes: b } ==> b == bytes,
        (p.m.inbox + (given + bytes) + more).is_prefix_of(p.incoming.flatten()),
    ensures
        q.can(step),
{
    if step is Given {
        let done = p.incoming.take(h).flatten();
        vstd::seq_lib::lemma_flatten_concat(p.incoming.take(h), p.incoming.skip(h));
        assert(p.incoming.take(h) + p.incoming.skip(h) =~= p.incoming);
        assert(p.m.inbox + (given + bytes) + more =~= (p.m.inbox + given) + (bytes + more));
        lemma_given(done, q.incoming.flatten(), q.m.inbox, bytes, more);
    }
}

/// The frame that a step handles is the next.
proof fn lemma_handled_on_line<C: Crc>(
    p: Side,
    q: Side,
    crc: C,
    step: Step,
    given: Seq<u8>,
    taken: Seq<u8>,
    h: int,
)
    requires
        reached(p, q, given, taken, h),
        q.can(step),
        step is Handled,
    ensures
        reached(p, q.after(crc, step), given, taken, h + 1),
{
    lemma_side_step(q, crc, step);
    let f = q.incoming.first();
    let end = q.after(crc, step);
    assert(p.incoming.skip(h).drop_first() =~= p.incoming.skip(h + 1));
    assert(p.incoming.take(h + 1) =~= p.incoming.take(h).push(f));
    p.incoming.take(h).lemma_flatten_push(f);
    assert(p.incoming.take(h).flatten() + (f + end.m.inbox) =~= p.incoming.take(h + 1).flatten()
        + end.m.inbox);
}

/// Any other step.
proof fn lemma_other_on_line<C: Crc>(
    p: Side,
    q: Side,
    crc: C,
    step: Step,
    given: Seq<u8>,
    taken: Seq<u8>,
    h: int,
)
    requires
        reached(p, q, given, taken, h),
        q.can(step),
        !(step is Handled),
    ensures
        ({
            let t = crate::steps::step_tally(q.m, crc, step);
            reached(p, q.after(crc, step), given + t.given, taken + t.taken, h)
        }),
{
    let t = crate::steps::step_tally(q.m, crc, step);
    let end = q.after(crc, step);
    let done = p.incoming.take(h).flatten();
    lemma_side_step(q, crc, step);
    lemma_side_out(q, crc, step);
    assert(p.outgoing.flatten() + p.part + taken + t.taken =~= p.outgoing.flatten() + p.part + (
    taken + t.taken));
    assert(p.m.inbox + (given + t.given) =~= (p.m.inbox + given) + t.given);
    if step is Given {
        assert(done + (q.m.inbox + t.given) =~= (done + q.m.inbox) + t.given);
    } else {
        assert(done + q.m.inbox + t.given =~= done + q.m.inbox);
    }
}

/// Steps on the line, with more to be given after them.
proof fn lemma_side_walk<C: Crc>(p: Side, crc: C, steps: Seq<Step>, more: Seq<u8>) -> (h: int)
    requires
        p.in_step(),
        p.m.can_walk(crc, steps),
        (p.m.inbox + crate::steps::tally(p.m, crc, steps).given + more).is_prefix_of(
            p.incoming.flatten(),
        ),
    ensures
        p.can_walk(crc, steps),
        p.walked(crc, steps).m == p.m.walked(crc, steps),
        reached(
            p,
            p.walked(crc, steps),
            crate::steps::tally(p.m, crc, steps).given,
            crate::steps::tally(p.m, crc, steps).taken,
            h,
        ),
    decreases steps.len(),
{
    let t = crate::steps::tally(p.m, crc, steps);
    if steps.len() == 0 {
        assert(p.incoming.skip(0) =~= p.incoming);
        assert(p.incoming.take(0) =~= Seq::empty());
        assert(p.m.inbox + t.given =~= Seq::<u8>::empty() + p.m.inbox);
        assert(p.outgoing.flatten() + p.part =~= p.outgoing.flatten() + p.part + t.taken);
        0
    } else {
        let fewer = steps.drop_last();
        let step = steps.last();
        let t1 = crate::steps::tally(p.m, crc, fewer);
        let t2 = crate::steps::step_tally(p.m.walked(crc, fewer), crc, step);
        assert(p.m.inbox + t.given + more =~= p.m.inbox + t1.given + (t2.given + more));
        let h = lemma_side_walk(p, crc, fewer, t2.given + more);
        let q = p.walked(crc, fewer);
        lemma_can_on_line(p, q, step, t1.given, t1.taken, h, t2.given, more);
        if step is Handled {
            lemma_handled_on_line(p, q, crc, step, t1.given, t1.taken, h);
            assert(t.given =~= t1.given);
            assert(t.taken =~= t1.taken);
            h + 1
        } else {
            lemma_other_on_line(p, q, crc, step, t1.given, t1.taken, h);
            h
        }
    }
}

/// Bytes that are given are the next ones in transit.
proof fn lemma_given(
    done: Seq<u8>,
    ahead: Seq<u8>,
    inbox: Seq<u8>,
    bytes: Seq<u8>,
    more: Seq<u8>,
)
    requires
        (done + inbox + (bytes + more)).is_prefix_of(done + ahead),
    ensures
        (inbox + bytes).is_prefix_of(ahead),
{
    let all = done + inbox + (bytes + more);
    assert forall|i: int| 0 <= i < inbox.len() + bytes.len() implies (inbox + bytes)[i]
        == ahead[i] by {
        assert(all[done.len() + i] == (done + ahead)[done.len() + i]);
    }
    assert(inbox + bytes =~= ahead.take((inbox + bytes).len() as int));
}

/// What the lower layer takes in a step.
proof fn lemma_side_out<C: Crc>(q: Side, crc: C, step: Step)
    requires
        q.m.can(step),
    ensures
        q.after(crc, step).outgoing.flatten() + q.after(crc, step).part == q.outgoing.flatten()
            + q.part + crate::steps::step_tally(q.m, crc, step).taken,
{
    let taken = crate::steps::step_tally(q.m, crc, step).taken;
    let end = q.after(crc, step);
    if let Step::Wrote { n } = step {
        let first = q.m.wire.first();
        if n < first.len() {
            assert(q.outgoing.flatten() + (q.part + taken) =~= q.outgoing.flatten() + q.part
                + taken);
        } else {
            q.outgoing.lemma_flatten_push(q.part + first);
            assert(first.take(n as int) =~= first);
            assert(end.outgoing.flatten() + end.part =~= q.outgoing.flatten() + q.part + taken);
        }
    } else {
        assert(q.outgoing.flatten() + q.part =~= q.outgoing.flatten() + q.part + taken);
    }
}

/// Steps of one end are steps on the line, as long as the bytes that are given are
/// those in transit: each can be made when its turn comes and leads where it leads
/// without the line. The frames that were handled and the bytes that are still in the
/// inbox are the bytes that were there and those that were given; and what goes into
/// transit is what was taken.
pub proof fn law_steps_on_the_line<C: Crc>(p: Side, crc: C, steps: Seq<Step>)
    requires
        p.in_step(),
        p.m.can_walk(crc, steps),
        (p.m.inbox + crate::steps::tally(p.m, crc, steps).given).is_prefix_of(
            p.incoming.flatten(),
        ),
    ensures
        ({
            let q = p.walked(crc, steps);
            let t = crate::steps::tally(p.m, crc, steps);
            let h = p.incoming.len() - q.incoming.len();
            &&& p.can_walk(crc, steps)
            &&& q.m == p.m.walked(crc, steps)
            &&& q.in_step()
            &&& h >= 0
            &&& q.incoming == p.incoming.skip(h)
            &&& p.m.inbox + t.given == p.incoming.take(h).flatten() + q.m.inbox
            &&& q.outgoing.flatten() + q.part == p.outgoing.flatten() + p.part + t.taken
        }),
{
    let t = crate::steps::tally(p.m, crc, steps);
    assert(p.m.inbox + t.given + Seq::<u8>::empty() =~= p.m.inbox + t.given);
    let h = lemma_side_walk(p, crc, steps, Seq::empty());
}

} // verus!
