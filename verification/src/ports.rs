//! The machine's only way to the lower layer and the clock.
//!
//! Every call is made here, and each one is recorded with its reply. The record
//! is held to the lower layer's own log, and its readings to what the clock gives.

use crate::endpoint::Replies;
use crate::lower::{Lower, LowerEvent};
use crate::time::{Instant, Timer};
use core::task::{Context, Poll};
use vstd::prelude::*;

verus! {

/// A lower layer and a clock, and what they have said so far.
pub struct Ports<L: Lower, T> {
    lower: L,
    timer: T,
    earlier: Ghost<Seq<LowerEvent<L::Error>>>,
    heard: Ghost<Replies<L::Error>>,
}

impl<L: Lower, T> Ports<L, T> {
    /// The lower layer.
    pub closed spec fn lower(&self) -> L {
        self.lower
    }

    /// The clock.
    pub closed spec fn timer(&self) -> T {
        self.timer
    }

    /// All replies so far.
    pub closed spec fn heard(&self) -> Replies<L::Error> {
        self.heard@
    }

    /// The lower layer's log as it was at first.
    pub closed spec fn earlier(&self) -> Seq<LowerEvent<L::Error>> {
        self.earlier@
    }
}

impl<L: Lower, T: Timer> Ports<L, T> {
    /// The record is true: the calls in it are those that the lower layer has in its
    /// log since, and the readings in it are readings of the clock.
    pub open spec fn wf(&self) -> bool {
        &&& self.lower().log() == self.earlier() + self.heard().io
        &&& forall|i: int|
            0 <= i < self.heard().clock.len() ==> self.timer().may_read(
                #[trigger] self.heard().clock[i],
            )
    }

    pub fn new(lower: L, timer: T) -> (ports: Ports<L, T>)
        ensures
            ports.lower() == lower,
            ports.timer() == timer,
            ports.heard() == Replies::<L::Error>::none(),
            ports.wf(),
    {
        let ghost earlier = lower.log();
        proof {
            assert(earlier =~= earlier + Replies::<L::Error>::none().io);
        }
        Ports { lower, timer, earlier: Ghost(earlier), heard: Ghost(Replies::none()) }
    }

    /// Reads the clock.
    pub fn now(&mut self) -> (t: Instant)
        requires
            old(self).wf(),
        ensures
            final(self).wf(),
            final(self).earlier() == old(self).earlier(),
            final(self).lower() == old(self).lower(),
            final(self).timer() == old(self).timer(),
            final(self).heard() == old(self).heard().and(Replies::readings(seq![t])),
    {
        let t = self.timer.now();
        self.heard = Ghost(self.heard@.and(Replies::readings(Seq::empty().push(t))));
        proof {
            assert(self.heard().io =~= old(self).heard().io);
        }
        t
    }

    /// Reads from the lower layer into the start of `buf`.
    pub fn poll_read(&mut self, cx: &mut Context<'_>, buf: &mut [u8]) -> (reply: Poll<
        Result<usize, L::Error>,
    >)
        requires
            old(self).wf(),
        ensures
            final(self).wf(),
            final(self).earlier() == old(self).earlier(),
            final(buf)@.len() == old(buf)@.len(),
            reply matches Poll::Ready(Ok(n)) ==> n <= old(buf)@.len(),
            final(self).timer() == old(self).timer(),
            final(self).heard() == old(self).heard().and(
                Replies::call(
                    LowerEvent::Read {
                        room: old(buf)@.len(),
                        got: crate::lower::read_reply(reply, final(buf)@),
                    },
                ),
            ),
    {
        let ghost room = buf@.len();
        let reply = self.lower.poll_read(cx, buf);
        self.heard = Ghost(
            self.heard@.and(
                Replies::call(
                    LowerEvent::Read { room, got: crate::lower::read_reply(reply, buf@) },
                ),
            ),
        );
        proof {
            assert(self.lower().log() =~= self.earlier() + self.heard().io);
            assert(self.heard().clock =~= old(self).heard().clock);
        }
        reply
    }

    /// Offers `buf` to the lower layer.
    pub fn poll_write(&mut self, cx: &mut Context<'_>, buf: &[u8]) -> (reply: Poll<
        Result<usize, L::Error>,
    >)
        requires
            old(self).wf(),
        ensures
            final(self).wf(),
            final(self).earlier() == old(self).earlier(),
            reply matches Poll::Ready(Ok(n)) ==> n <= buf@.len(),
            final(self).timer() == old(self).timer(),
            final(self).heard() == old(self).heard().and(
                Replies::call(LowerEvent::Write { offered: buf@, taken: reply }),
            ),
    {
        let reply = self.lower.poll_write(cx, buf);
        self.heard = Ghost(
            self.heard@.and(
                Replies::call(LowerEvent::Write { offered: buf@, taken: reply }),
            ),
        );
        proof {
            assert(self.lower().log() =~= self.earlier() + self.heard().io);
            assert(self.heard().clock =~= old(self).heard().clock);
        }
        reply
    }

    /// Flushes the lower layer.
    pub fn poll_flush(&mut self, cx: &mut Context<'_>) -> (reply: Poll<Result<(), L::Error>>)
        requires
            old(self).wf(),
        ensures
            final(self).wf(),
            final(self).earlier() == old(self).earlier(),
            final(self).timer() == old(self).timer(),
            final(self).heard() == old(self).heard().and(
                Replies::call(LowerEvent::Flush { flushed: reply }),
            ),
    {
        let reply = self.lower.poll_flush(cx);
        self.heard = Ghost(
            self.heard@.and(Replies::call(LowerEvent::Flush { flushed: reply })),
        );
        proof {
            assert(self.lower().log() =~= self.earlier() + self.heard().io);
            assert(self.heard().clock =~= old(self).heard().clock);
        }
        reply
    }
}

} // verus!
