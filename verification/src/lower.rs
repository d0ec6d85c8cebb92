//! The layer below the link: a byte stream that is polled.
//!
//! The machine never assumes how much the lower layer accepts per call; it
//! only uses the returned lengths and polls again until a frame is out.

use core::task::{Context, Poll};
use vstd::prelude::*;

verus! {

/// `core::task::Poll`, with its two variants.
#[verifier::external_type_specification]
#[verifier::reject_recursive_types(T)]
pub struct ExPoll<T>(Poll<T>);

/// `core::task::Context`, held as an opaque value that is passed on to the
/// lower layer.
#[verifier::external_type_specification]
#[verifier::external_body]
pub struct ExContext<'a>(Context<'a>);

/// One call of the lower layer and its reply. A read reply holds the bytes that
/// were read in place of their number.
#[verifier::reject_recursive_types(E)]
pub enum LowerEvent<E> {
    Read { room: nat, got: Poll<Result<Seq<u8>, E>> },
    Write { offered: Seq<u8>, taken: Poll<Result<usize, E>> },
    Flush { flushed: Poll<Result<(), E>> },
}

impl<E> LowerEvent<E> {
    /// No more was read than there was room for, or written than was offered.
    pub open spec fn honest(self) -> bool {
        match self {
            LowerEvent::Read { room, got: Poll::Ready(Ok(bytes)) } => bytes.len() <= room,
            LowerEvent::Write { offered, taken: Poll::Ready(Ok(n)) } => n <= offered.len(),
            _ => true,
        }
    }
}

/// The same of a sequence of calls.
pub open spec fn honest<E>(io: Seq<LowerEvent<E>>) -> bool {
    forall|i: int| 0 <= i < io.len() ==> (#[trigger] io[i]).honest()
}

/// The reply to a read of `n` bytes into `buf`, with the bytes themselves.
pub open spec fn read_reply<E>(
    reply: Poll<Result<usize, E>>,
    buf: Seq<u8>,
) -> Poll<Result<Seq<u8>, E>> {
    match reply {
        Poll::Pending => Poll::Pending,
        Poll::Ready(Ok(n)) => Poll::Ready(Ok(buf.take(n as int))),
        Poll::Ready(Err(e)) => Poll::Ready(Err(e)),
    }
}

/// A read of `n` bytes gives the first `n` bytes of the buffer; any other reply is passed
/// on as it is.
pub proof fn law_read_gives_the_first_bytes<E>(reply: Poll<Result<usize, E>>, buf: Seq<u8>, e: E)
    requires
        reply matches Poll::Ready(Ok(n)) ==> n <= buf.len(),
    ensures
        ({
            let got = read_reply(reply, buf);
            &&& (got is Pending <==> reply is Pending)
            &&& (got == Poll::<Result<Seq<u8>, E>>::Ready(Err(e)) <==> reply == Poll::<
                Result<usize, E>,
            >::Ready(Err(e)))
            &&& (reply matches Poll::Ready(Ok(n)) ==> (got matches Poll::Ready(Ok(bytes))
                && bytes.len() == n && bytes.is_prefix_of(buf)))
        }),
{
}

/// A polled byte stream. Each of its methods either moves bytes and says how
/// many, or reports an error, or is not ready and wakes the task later.
pub trait Lower {
    type Error: core::fmt::Debug + 'static;

    /// Every call so far, with its reply.
    open spec fn log(&self) -> Seq<LowerEvent<Self::Error>> {
        vstd::pervasive::arbitrary()
    }

    /// Reads up to `buf.len()` bytes into the start of `buf`; `Ok(0)` means that
    /// the stream has ended.
    fn poll_read(&mut self, cx: &mut Context<'_>, buf: &mut [u8]) -> (reply: Poll<
        Result<usize, Self::Error>,
    >)
        ensures
            final(buf)@.len() == old(buf)@.len(),
            reply matches Poll::Ready(Ok(n)) ==> n <= old(buf)@.len(),
            final(self).log() == old(self).log().push(
                LowerEvent::Read { room: old(buf)@.len(), got: read_reply(reply, final(buf)@) },
            ),
    ;

    /// Takes up to `buf.len()` bytes from the start of `buf`; `Ok(0)` means that
    /// the stream takes no more.
    fn poll_write(&mut self, cx: &mut Context<'_>, buf: &[u8]) -> (reply: Poll<
        Result<usize, Self::Error>,
    >)
        ensures
            reply matches Poll::Ready(Ok(n)) ==> n <= buf@.len(),
            final(self).log() == old(self).log().push(
                LowerEvent::Write { offered: buf@, taken: reply },
            ),
    ;

    /// Sends on whatever the layer holds back.
    fn poll_flush(&mut self, cx: &mut Context<'_>) -> (reply: Poll<Result<(), Self::Error>>)
        ensures
            final(self).log() == old(self).log().push(LowerEvent::Flush { flushed: reply }),
    ;
}

} // verus!
