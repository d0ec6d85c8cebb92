//! Two ends of a link over a line that loses, damages and delays frames.

use arq::frame::{HDR_LEN, MAX_PAYLOAD};
use arq::{Arq, ArqError, Crc16X25, Duration, Instant, Lower, State, Timer, PAYLOAD_RING};
use std::cell::{Cell, RefCell};
use std::convert::Infallible;
use std::rc::Rc;
use std::task::{Context, Poll, Waker};

/// One direction of the line.
#[derive(Clone, Default)]
struct Pipe(Rc<RefCell<Vec<u8>>>);

struct EndLink {
    incoming: Pipe,
    outgoing: Pipe,
}

impl Lower for EndLink {
    type Error = Infallible;

    fn poll_read(
        &mut self,
        _cx: &mut Context<'_>,
        buf: &mut [u8],
    ) -> Poll<Result<usize, Infallible>> {
        let mut pipe = self.incoming.0.borrow_mut();
        if pipe.is_empty() {
            return Poll::Pending;
        }
        let n = buf.len().min(pipe.len());
        buf[..n].copy_from_slice(&pipe[..n]);
        pipe.drain(..n);
        Poll::Ready(Ok(n))
    }

    fn poll_write(&mut self, _cx: &mut Context<'_>, buf: &[u8]) -> Poll<Result<usize, Infallible>> {
        self.outgoing.0.borrow_mut().extend_from_slice(buf);
        Poll::Ready(Ok(buf.len()))
    }

    fn poll_flush(&mut self, _cx: &mut Context<'_>) -> Poll<Result<(), Infallible>> {
        Poll::Ready(Ok(()))
    }
}

#[derive(Clone, Default)]
struct SharedTimer(Rc<Cell<u64>>);

impl Timer for SharedTimer {
    fn now(&self) -> Instant {
        Instant::default() + Duration::from_millis(self.0.get())
    }
}

type End = Arq<EndLink, SharedTimer, Crc16X25>;

/// Two ends, and what each has put on the line and has yet to take off it.
struct Line {
    a: End,
    b: End,
    from_a: Pipe,
    to_b: Pipe,
    from_b: Pipe,
    to_a: Pipe,
    timer: SharedTimer,
    seed: u64,
}

fn line(max_resend: usize) -> Line {
    let timer = SharedTimer::default();
    let (from_a, to_b, from_b, to_a) =
        (Pipe::default(), Pipe::default(), Pipe::default(), Pipe::default());
    let a = Arq::new(
        EndLink { incoming: to_a.clone(), outgoing: from_a.clone() },
        timer.clone(),
        Crc16X25,
        max_resend,
    );
    let b = Arq::new(
        EndLink { incoming: to_b.clone(), outgoing: from_b.clone() },
        timer.clone(),
        Crc16X25,
        max_resend,
    );
    Line { a, b, from_a, to_b, from_b, to_a, timer, seed: 1 }
}

impl Line {
    fn chance(&mut self) -> u64 {
        self.seed = self.seed.wrapping_mul(6364136223846793005).wrapping_add(1442695040888963407);
        self.seed >> 33
    }

    /// Carries over what each end has written. Of a hundred frames, `lost` are lost
    /// and `damaged` are damaged, other than in their length.
    fn carry(&mut self, lost: u64, damaged: u64) {
        let pairs =
            [(self.from_a.clone(), self.to_b.clone()), (self.from_b.clone(), self.to_a.clone())];
        for (from, to) in pairs {
            let bytes = std::mem::take(&mut *from.0.borrow_mut());
            let mut rest: &[u8] = &bytes;
            while !rest.is_empty() {
                let (frame, tail) = rest.split_at(HDR_LEN + rest[2] as usize);
                rest = tail;
                let luck = self.chance() % 100;
                let mut frame = frame.to_vec();
                if luck < lost {
                    continue;
                }
                if luck < lost + damaged {
                    let at = self.chance() as usize % frame.len();
                    if at != 2 {
                        frame[at] ^= 1 + (self.chance() % 255) as u8;
                    }
                }
                to.0.borrow_mut().extend(frame);
            }
        }
    }

    fn sync(&mut self) {
        let w = Waker::noop().clone();
        let mut cx = Context::from_waker(&w);
        for _ in 0..3 {
            assert_eq!(self.a.poll(&mut cx, &mut []), Poll::Pending);
            assert_eq!(self.b.poll(&mut cx, &mut []), Poll::Pending);
            self.carry(0, 0);
        }
        assert_eq!((self.a.state(), self.b.state()), (State::Idle, State::Idle));
    }

    /// Sends `data` from `a` to `b` and `back` the other way, and returns what each
    /// of the two read.
    fn exchange(
        &mut self,
        data: &[u8],
        back: &[u8],
        lost: u64,
        damaged: u64,
    ) -> (Vec<u8>, Vec<u8>) {
        let w = Waker::noop().clone();
        let mut cx = Context::from_waker(&w);
        let (mut at_b, mut at_a) = (Vec::new(), Vec::new());
        let (mut i, mut j) = (0, 0);
        let mut buf = [0u8; 100];
        for _ in 0..200_000 {
            if i < data.len() {
                if let Poll::Ready(r) = self.a.poll_write(&mut cx, &data[i..]) {
                    i += r.unwrap();
                }
            }
            if j < back.len() {
                if let Poll::Ready(r) = self.b.poll_write(&mut cx, &back[j..]) {
                    j += r.unwrap();
                }
            }
            let flushed = (self.a.poll_flush(&mut cx), self.b.poll_flush(&mut cx));
            while let Poll::Ready(n) = self.b.poll_read(&mut cx, &mut buf) {
                at_b.extend_from_slice(&buf[..n.unwrap()]);
            }
            while let Poll::Ready(n) = self.a.poll_read(&mut cx, &mut buf) {
                at_a.extend_from_slice(&buf[..n.unwrap()]);
            }
            // What was read so far is the start of what was written.
            assert!(data.starts_with(&at_b));
            assert!(back.starts_with(&at_a));
            if i == data.len()
                && j == back.len()
                && flushed == (Poll::Ready(Ok(())), Poll::Ready(Ok(())))
            {
                return (at_b, at_a);
            }
            self.carry(lost, damaged);
            self.timer.0.set(self.timer.0.get() + 10);
        }
        panic!("the line never came to rest");
    }
}

fn bytes(n: usize, seed: usize) -> Vec<u8> {
    (0..n).map(|i| (i * 31 + i / 256 + seed) as u8).collect()
}

#[test]
fn handshake_puts_both_ends_in_step() {
    let mut l = line(3);
    l.sync();
    assert_eq!(l.a.recv_pkt_id().wrapping_add(1), l.b.next_pkt_id());
    assert_eq!(l.b.recv_pkt_id().wrapping_add(1), l.a.next_pkt_id());
}

#[test]
fn payload_crosses_and_is_acknowledged() {
    let mut l = line(3);
    l.sync();
    let (at_b, at_a) = l.exchange(b"hello", b"", 0, 0);
    assert_eq!(at_b, b"hello");
    assert!(at_a.is_empty());
    assert_eq!((l.a.send_metrics().dat, l.a.send_metrics().retrans), (1, 0));
    assert_eq!((l.b.recv_metrics().dat, l.b.send_metrics().ack), (1, 1));
}

#[test]
fn both_ways_over_a_clear_line() {
    let mut l = line(3);
    l.sync();
    let (data, back) = (bytes(5000, 1), bytes(3000, 2));
    let (at_b, at_a) = l.exchange(&data, &back, 0, 0);
    assert_eq!((at_b, at_a), (data, back));
    assert_eq!(l.a.recv_metrics().crc + l.b.recv_metrics().crc, 0);
}

#[test]
fn exactly_once_over_a_lossy_line() {
    let mut l = line(1_000_000);
    l.sync();
    let (data, back) = (bytes(20 * MAX_PAYLOAD + 17, 3), bytes(10 * MAX_PAYLOAD, 4));
    let (at_b, at_a) = l.exchange(&data, &back, 30, 0);
    assert_eq!((at_b, at_a), (data, back));
    assert!(l.a.send_metrics().retrans > 0);
    assert!(l.b.recv_metrics().dup > 0);
    assert_eq!(l.a.send_metrics().lost, 0);
}

#[test]
fn exactly_once_over_a_damaging_line() {
    let mut l = line(1_000_000);
    l.sync();
    let (data, back) = (bytes(20 * MAX_PAYLOAD, 5), bytes(10 * MAX_PAYLOAD, 6));
    let (at_b, at_a) = l.exchange(&data, &back, 10, 30);
    assert_eq!((at_b, at_a), (data, back));
    assert!(l.b.recv_metrics().crc > 0);
    assert!(l.b.send_metrics().nak > 0);
}

#[test]
fn ids_wrap_around() {
    let mut l = line(1_000_000);
    l.sync();
    let data = bytes(600 * MAX_PAYLOAD, 7);
    let (at_b, _) = l.exchange(&data, b"", 5, 5);
    assert_eq!(at_b, data);
    assert_eq!(l.a.send_metrics().dat, 600);
    assert_eq!(l.a.next_pkt_id(), (600 % 256) as u8);
    assert_eq!(l.b.recv_metrics().dat, 600);
}

#[test]
fn bytes_written_before_the_handshake_cross_too() {
    let mut l = line(3);
    let w = Waker::noop().clone();
    let mut cx = Context::from_waker(&w);
    assert_eq!(l.a.poll_write(&mut cx, b"early "), Poll::Ready(Ok(6)));
    l.sync();
    assert_eq!(l.a.poll_write(&mut cx, b"bird"), Poll::Ready(Ok(4)));
    assert_eq!(l.a.poll_flush(&mut cx), Poll::Pending);
    l.carry(0, 0);
    let mut buf = [0u8; 32];
    assert_eq!(l.b.poll_read(&mut cx, &mut buf), Poll::Ready(Ok(10)));
    assert_eq!(&buf[..10], b"early bird");
}

#[test]
fn giving_up_loses_the_next_payload_as_well() {
    let mut l = line(0);
    l.sync();
    let w = Waker::noop().clone();
    let mut cx = Context::from_waker(&w);
    let mut buf = [0u8; 8];
    // The only frame with the first payload is lost, and the payload given up.
    assert_eq!(l.a.poll_write(&mut cx, b"one"), Poll::Ready(Ok(3)));
    assert_eq!(l.a.poll_flush(&mut cx), Poll::Pending);
    l.carry(100, 0);
    l.timer.0.set(l.timer.0.get() + 50);
    assert_eq!(l.a.poll_flush(&mut cx), Poll::Ready(Err(ArqError::Timeout)));
    // The receiver still expects its id and takes the next one for a duplicate.
    assert_eq!(l.a.poll_write(&mut cx, b"two"), Poll::Ready(Ok(3)));
    assert_eq!(l.a.poll_flush(&mut cx), Poll::Pending);
    l.carry(0, 0);
    assert_eq!(l.b.poll_read(&mut cx, &mut buf), Poll::Pending);
    assert_eq!(l.b.recv_metrics().dup, 1);
    l.carry(0, 0);
    assert_eq!(l.a.poll_flush(&mut cx), Poll::Ready(Ok(())));
}

#[test]
fn giving_up_on_an_arrived_payload_is_harmless() {
    let mut l = line(0);
    l.sync();
    let w = Waker::noop().clone();
    let mut cx = Context::from_waker(&w);
    let mut buf = [0u8; 8];
    assert_eq!(l.a.poll_write(&mut cx, b"one"), Poll::Ready(Ok(3)));
    assert_eq!(l.a.poll_flush(&mut cx), Poll::Pending);
    l.carry(0, 0);
    assert_eq!(l.b.poll_read(&mut cx, &mut buf), Poll::Ready(Ok(3)));
    // Its ACK is lost.
    l.carry(100, 0);
    l.timer.0.set(l.timer.0.get() + 50);
    assert_eq!(l.a.poll_flush(&mut cx), Poll::Ready(Err(ArqError::Timeout)));
    let (at_b, _) = l.exchange(b"two", b"", 0, 0);
    assert_eq!(at_b, b"two");
}

#[test]
fn full_receiver_makes_the_sender_try_again() {
    let mut l = line(3);
    l.sync();
    let w = Waker::noop().clone();
    let mut cx = Context::from_waker(&w);
    for i in 0..=PAYLOAD_RING {
        assert_eq!(l.a.poll_write(&mut cx, &[i as u8]), Poll::Ready(Ok(1)));
        assert_eq!(l.a.poll_flush(&mut cx), Poll::Pending);
        l.carry(0, 0);
        assert_eq!(l.b.poll(&mut cx, &mut []), Poll::Pending);
        l.carry(0, 0);
        assert_eq!(l.a.poll(&mut cx, &mut []), Poll::Pending);
    }
    assert_eq!(l.b.recv_metrics().backpressure, 1);
    assert_eq!(l.b.send_metrics().nak, 1);
    assert_eq!(l.a.send_metrics().retrans, 1);
    // Once there is room, the retransmission is taken.
    let mut buf = [0u8; 1];
    for i in 0..=PAYLOAD_RING {
        assert_eq!(l.b.poll_read(&mut cx, &mut buf), Poll::Ready(Ok(1)));
        assert_eq!(buf[0], i as u8);
        l.carry(0, 0);
    }
    assert_eq!((l.b.recv_metrics().dat, l.b.recv_metrics().dup), (PAYLOAD_RING as u32 + 1, 0));
    assert_eq!(l.a.poll_flush(&mut cx), Poll::Ready(Ok(())));
}

#[test]
fn slow_reader_loses_nothing() {
    let mut l = line(1_000_000);
    l.sync();
    let w = Waker::noop().clone();
    let mut cx = Context::from_waker(&w);
    let data = bytes(30 * MAX_PAYLOAD, 8);
    let (mut i, mut at_b) = (0, Vec::new());
    let mut buf = [0u8; 100];
    for round in 0..10_000 {
        if i < data.len() {
            if let Poll::Ready(r) = l.a.poll_write(&mut cx, &data[i..]) {
                i += r.unwrap();
            }
        }
        let _ = l.a.poll_flush(&mut cx);
        // The reader comes by only now and then.
        if round % 7 == 0 {
            if let Poll::Ready(n) = l.b.poll_read(&mut cx, &mut buf) {
                at_b.extend_from_slice(&buf[..n.unwrap()]);
            }
        } else {
            assert_eq!(l.b.poll(&mut cx, &mut []), Poll::Pending);
        }
        l.carry(10, 10);
        l.timer.0.set(l.timer.0.get() + 10);
    }
    assert_eq!(at_b, data);
    assert!(l.b.recv_metrics().backpressure > 0);
}

#[test]
fn restarted_peer_is_picked_up() {
    let mut l = line(3);
    l.sync();
    let (at_b, _) = l.exchange(b"before", b"", 0, 0);
    assert_eq!(at_b, b"before");
    // `a` starts over: its ids begin at 0 again.
    l.a = Arq::new(
        EndLink { incoming: l.to_a.clone(), outgoing: l.from_a.clone() },
        l.timer.clone(),
        Crc16X25,
        3,
    );
    let w = Waker::noop().clone();
    let mut cx = Context::from_waker(&w);
    assert_eq!(l.a.poll(&mut cx, &mut []), Poll::Pending);
    l.carry(0, 0);
    assert_eq!(l.b.poll(&mut cx, &mut []), Poll::Pending);
    l.carry(0, 0);
    assert_eq!(l.a.poll(&mut cx, &mut []), Poll::Pending);
    assert_eq!(l.a.state(), State::Idle);
    let (at_b, at_a) = l.exchange(b"after", b"reply", 0, 0);
    assert_eq!((&at_b[..], &at_a[..]), (&b"after"[..], &b"reply"[..]));
}
