//! One end of a link over a mock lower layer and a mock clock.

use arq::frame::{
    build_dat_frame, ctl_frame, HDR_LEN, MAX_PAYLOAD, MSG_TYPE_ACK, MSG_TYPE_DAT, MSG_TYPE_NAK,
    MSG_TYPE_RYN, MSG_TYPE_SYN,
};
use arq::{
    Arq, ArqError, Crc, Crc16X25, Duration, Instant, Lower, State, Timer, ACK_TIMEOUT_MILLIS,
    PAYLOAD_RING, SYNC_PERIOD_MILLIS, TX_FIFO,
};
use std::cell::{Cell, RefCell};
use std::convert::Infallible;
use std::rc::Rc;
use std::task::{Context, Poll, Waker};

struct Wire {
    rx: Vec<u8>,
    tx: Vec<u8>,
    write_chunk: usize,
    partial_pending: bool,
}

#[derive(Clone)]
struct MockLink(Rc<RefCell<Wire>>);

impl MockLink {
    fn new() -> Self {
        MockLink(Rc::new(RefCell::new(Wire {
            rx: Vec::new(),
            tx: Vec::new(),
            write_chunk: 0,
            partial_pending: false,
        })))
    }

    fn feed(&self, bytes: Vec<u8>) {
        self.0.borrow_mut().rx.extend(bytes);
    }

    fn tx(&self) -> Vec<u8> {
        self.0.borrow().tx.clone()
    }

    fn set_write_chunk(&self, n: usize) {
        self.0.borrow_mut().write_chunk = n;
    }
}

impl Lower for MockLink {
    type Error = Infallible;

    fn poll_read(
        &mut self,
        cx: &mut Context<'_>,
        buf: &mut [u8],
    ) -> Poll<Result<usize, Infallible>> {
        let mut wire = self.0.borrow_mut();
        if wire.rx.is_empty() {
            cx.waker().wake_by_ref();
            return Poll::Pending;
        }
        let n = std::cmp::min(buf.len(), wire.rx.len());
        buf[..n].copy_from_slice(&wire.rx[..n]);
        wire.rx.drain(..n);
        Poll::Ready(Ok(n))
    }

    fn poll_write(&mut self, _cx: &mut Context<'_>, buf: &[u8]) -> Poll<Result<usize, Infallible>> {
        let mut wire = self.0.borrow_mut();
        if wire.partial_pending {
            wire.partial_pending = false;
            return Poll::Pending;
        }
        let n = if wire.write_chunk == 0 {
            buf.len()
        } else {
            std::cmp::min(buf.len(), wire.write_chunk)
        };
        wire.tx.extend_from_slice(&buf[..n]);
        if n < buf.len() {
            wire.partial_pending = true;
        }
        Poll::Ready(Ok(n))
    }

    fn poll_flush(&mut self, _cx: &mut Context<'_>) -> Poll<Result<(), Infallible>> {
        Poll::Ready(Ok(()))
    }
}

#[derive(Clone)]
struct MockTimer(Rc<Cell<u64>>);

impl MockTimer {
    fn new() -> Self {
        MockTimer(Rc::new(Cell::new(0)))
    }

    fn advance(&self, ms: u64) {
        self.0.set(self.0.get() + ms);
    }
}

impl Timer for MockTimer {
    fn now(&self) -> Instant {
        Instant::default() + Duration::from_millis(self.0.get())
    }
}

type MockArq = Arq<MockLink, MockTimer, Crc16X25>;

fn wire_ctl(ty: u8, id: u8) -> Vec<u8> {
    let f = ctl_frame(&Crc16X25, ty, id);
    f.data[..f.len].to_vec()
}

fn wire_dat(id: u8, payload: &[u8]) -> Vec<u8> {
    let f = build_dat_frame(&Crc16X25, id, payload);
    f.data[..f.len].to_vec()
}

// The stream carries back-to-back frames; returns the last complete one.
fn last_frame(tx: &[u8]) -> Option<&[u8]> {
    let mut start = 0;
    let mut last = None;
    while start + HDR_LEN <= tx.len() {
        let total = HDR_LEN + tx[start + 2] as usize;
        if start + total > tx.len() {
            break;
        }
        last = Some(&tx[start..start + total]);
        start += total;
    }
    last
}

fn count_frames(tx: &[u8], ty: u8) -> usize {
    let mut count = 0;
    let mut start = 0;
    while start + HDR_LEN <= tx.len() {
        let total = HDR_LEN + tx[start + 2] as usize;
        if start + total > tx.len() {
            break;
        }
        if tx[start] == ty {
            count += 1;
        }
        start += total;
    }
    count
}

fn fresh() -> (MockArq, MockLink, MockTimer) {
    let link = MockLink::new();
    let timer = MockTimer::new();
    let arq = Arq::new(link.clone(), timer.clone(), Crc16X25, 3);
    (arq, link, timer)
}

fn synced() -> (MockArq, MockLink, MockTimer) {
    let (mut arq, link, timer) = fresh();
    let w = Waker::noop().clone();
    let mut cx = Context::from_waker(&w);
    assert!(matches!(arq.poll_write(&mut cx, &[]), Poll::Ready(Ok(0))));
    link.feed(wire_ctl(MSG_TYPE_RYN, arq.next_pkt_id()));
    let mut buf = [0u8; 16];
    assert!(matches!(arq.poll_read(&mut cx, &mut buf), Poll::Pending));
    assert!(matches!(arq.state(), State::Idle));
    (arq, link, timer)
}

#[test]
fn crc16_x25_check_value() {
    let crc = Crc16X25;
    assert_eq!(
        crc.finalize(crc.crc_update(crc.init(), b"123456789")),
        0x906E
    );
}

#[test]
fn syn_sent_on_first_poll_and_repeated() {
    let (mut arq, link, timer) = fresh();
    let w = Waker::noop().clone();
    let mut cx = Context::from_waker(&w);
    assert!(matches!(arq.poll_write(&mut cx, &[]), Poll::Ready(Ok(0))));
    assert_eq!(link.tx().len(), HDR_LEN);
    timer.advance(SYNC_PERIOD_MILLIS);
    assert!(matches!(arq.poll_write(&mut cx, &[]), Poll::Ready(Ok(0))));
    assert_eq!(link.tx().len(), 2 * HDR_LEN);
}

#[test]
fn handshake_reaches_idle() {
    let (mut arq, link, _timer) = fresh();
    let w = Waker::noop().clone();
    let mut cx = Context::from_waker(&w);
    assert!(matches!(arq.poll_write(&mut cx, &[]), Poll::Ready(Ok(0))));
    link.feed(wire_ctl(MSG_TYPE_SYN, 7));
    link.feed(wire_ctl(MSG_TYPE_RYN, arq.next_pkt_id()));
    let mut buf = [0u8; 16];
    assert!(matches!(arq.poll_read(&mut cx, &mut buf), Poll::Pending));
    assert!(matches!(arq.state(), State::Idle));
    assert_eq!(arq.send_metrics().syn, 1);
    assert_eq!(arq.send_metrics().ryn, 1);
}

#[test]
fn send_dat_and_ack() {
    let (mut arq, link, _timer) = synced();
    let w = Waker::noop().clone();
    let mut cx = Context::from_waker(&w);
    assert!(matches!(
        arq.poll_write(&mut cx, b"hello"),
        Poll::Ready(Ok(5))
    ));
    // flush pushes the staged payload, sends DAT(0, "hello"), waits for ack
    assert!(matches!(arq.poll_flush(&mut cx), Poll::Pending));
    assert!(matches!(
        arq.state(),
        State::AwaitingAck {
            pending_id: 0,
            attempts: 0,
            ..
        }
    ));
    link.feed(wire_ctl(MSG_TYPE_ACK, 0));
    assert!(matches!(arq.poll_flush(&mut cx), Poll::Ready(Ok(()))));
    assert!(matches!(arq.state(), State::Idle));
    assert_eq!(arq.send_metrics().dat, 1);
    let tx = link.tx();
    let frame = last_frame(&tx).expect("DAT frame on the wire");
    assert_eq!(frame[0], MSG_TYPE_DAT);
    assert_eq!(frame[1], 0);
    assert_eq!(&frame[HDR_LEN..], b"hello");
}

#[test]
fn retransmit_on_nak() {
    let (mut arq, link, _timer) = synced();
    let w = Waker::noop().clone();
    let mut cx = Context::from_waker(&w);
    let _ = arq.poll_write(&mut cx, b"hello");
    assert!(matches!(arq.poll_flush(&mut cx), Poll::Pending));
    link.feed(wire_ctl(MSG_TYPE_NAK, 0));
    assert!(matches!(arq.poll_flush(&mut cx), Poll::Pending));
    assert!(matches!(
        arq.state(),
        State::AwaitingAck {
            pending_id: 0,
            attempts: 1,
            ..
        }
    ));
    assert_eq!(arq.send_metrics().retrans, 1);
    assert_eq!(count_frames(&link.tx(), MSG_TYPE_DAT), 2);
}

#[test]
fn retransmit_on_timeout_and_loss() {
    let (mut arq, _link, timer) = synced();
    let w = Waker::noop().clone();
    let mut cx = Context::from_waker(&w);
    let _ = arq.poll_write(&mut cx, b"hello");
    assert!(matches!(arq.poll_flush(&mut cx), Poll::Pending));
    timer.advance(ACK_TIMEOUT_MILLIS);
    assert!(matches!(arq.poll_flush(&mut cx), Poll::Pending));
    assert!(matches!(
        arq.state(),
        State::AwaitingAck { attempts: 1, .. }
    ));
    timer.advance(ACK_TIMEOUT_MILLIS);
    assert!(matches!(arq.poll_flush(&mut cx), Poll::Pending));
    assert!(matches!(
        arq.state(),
        State::AwaitingAck { attempts: 2, .. }
    ));
    timer.advance(ACK_TIMEOUT_MILLIS);
    assert!(matches!(arq.poll_flush(&mut cx), Poll::Pending));
    assert!(matches!(
        arq.state(),
        State::AwaitingAck { attempts: 3, .. }
    ));
    timer.advance(ACK_TIMEOUT_MILLIS);
    assert!(matches!(
        arq.poll_flush(&mut cx),
        Poll::Ready(Err(ArqError::Timeout))
    ));
    assert!(matches!(arq.state(), State::Idle));
    assert_eq!(arq.send_metrics().lost, 1);
    assert_eq!(arq.send_metrics().retrans, 3);
}

#[test]
fn receive_dat() {
    let (mut arq, link, _timer) = synced();
    let w = Waker::noop().clone();
    let mut cx = Context::from_waker(&w);
    link.feed(wire_dat(0, b"world"));
    let mut buf = [0u8; 8];
    assert!(matches!(
        arq.poll_read(&mut cx, &mut buf[..5]),
        Poll::Ready(Ok(5))
    ));
    assert_eq!(&buf[..5], b"world");
    assert_eq!(arq.recv_metrics().dat, 1);
    let tx = link.tx();
    let frame = last_frame(&tx).expect("ACK frame on the wire");
    assert_eq!(frame[0], MSG_TYPE_ACK);
    assert_eq!(frame[1], 0);
    assert!(matches!(arq.poll_read(&mut cx, &mut buf), Poll::Pending));
}

#[test]
fn partial_read_across_calls() {
    let (mut arq, link, _timer) = synced();
    let w = Waker::noop().clone();
    let mut cx = Context::from_waker(&w);
    link.feed(wire_dat(0, b"abcdefgh"));
    let mut buf = [0u8; 3];
    assert!(matches!(
        arq.poll_read(&mut cx, &mut buf),
        Poll::Ready(Ok(3))
    ));
    assert_eq!(&buf, b"abc");
    assert!(matches!(
        arq.poll_read(&mut cx, &mut buf),
        Poll::Ready(Ok(3))
    ));
    assert_eq!(&buf, b"def");
    assert!(matches!(
        arq.poll_read(&mut cx, &mut buf),
        Poll::Ready(Ok(2))
    ));
    assert_eq!(&buf[..2], b"gh");
    assert!(matches!(arq.poll_read(&mut cx, &mut buf), Poll::Pending));
}

#[test]
fn duplicate_dat_acked() {
    let (mut arq, link, _timer) = synced();
    let w = Waker::noop().clone();
    let mut cx = Context::from_waker(&w);
    link.feed(wire_dat(0, b"abc"));
    link.feed(wire_dat(0, b"abc"));
    let mut buf = [0u8; 8];
    assert!(matches!(
        arq.poll_read(&mut cx, &mut buf[..3]),
        Poll::Ready(Ok(3))
    ));
    assert_eq!(arq.recv_metrics().dat, 1);
    assert_eq!(arq.recv_metrics().dup, 1);
    assert_eq!(count_frames(&link.tx(), MSG_TYPE_ACK), 2);
}

#[test]
fn crc_error_triggers_nak() {
    let (mut arq, link, _timer) = synced();
    let w = Waker::noop().clone();
    let mut cx = Context::from_waker(&w);
    let mut bad = wire_dat(0, b"abc");
    bad[HDR_LEN] ^= 0xFF;
    link.feed(bad);
    assert!(matches!(arq.poll_write(&mut cx, &[]), Poll::Ready(Ok(0))));
    assert_eq!(arq.recv_metrics().crc, 1);
    let tx = link.tx();
    let frame = last_frame(&tx).expect("NAK frame on the wire");
    assert_eq!(frame[0], MSG_TYPE_NAK);
    assert_eq!(frame[1], 0);
}

#[test]
fn incomplete_frame_is_pending() {
    let (mut arq, link, _timer) = synced();
    let w = Waker::noop().clone();
    let mut cx = Context::from_waker(&w);
    link.feed(vec![1, 2, 0]);
    let mut buf = [0u8; 4];
    assert!(matches!(arq.poll_read(&mut cx, &mut buf), Poll::Pending));
    assert_eq!(arq.recv_metrics().framing, 0);
}

#[test]
fn oversized_stream_is_framing_error() {
    let (mut arq, link, _timer) = synced();
    let w = Waker::noop().clone();
    let mut cx = Context::from_waker(&w);
    link.feed(vec![1, 2, (MAX_PAYLOAD + 1) as u8, 0, 0]);
    assert!(matches!(
        arq.poll_write(&mut cx, &[]),
        Poll::Ready(Err(ArqError::Framing))
    ));
    assert_eq!(arq.recv_metrics().framing, 1);
}

#[test]
fn backpressure_triggers_nak() {
    let (mut arq, link, _timer) = synced();
    let w = Waker::noop().clone();
    let mut cx = Context::from_waker(&w);
    for i in 0..=PAYLOAD_RING as u8 {
        link.feed(wire_dat(i, b"filler"));
    }
    assert!(matches!(arq.poll_write(&mut cx, &[]), Poll::Ready(Ok(0))));
    assert_eq!(arq.recv_metrics().dat, PAYLOAD_RING as u32);
    assert_eq!(arq.recv_metrics().backpressure, 1);
    let tx = link.tx();
    let frame = last_frame(&tx).expect("NAK frame on the wire");
    assert_eq!(frame[0], MSG_TYPE_NAK);
    assert_eq!(frame[1], PAYLOAD_RING as u8);
}

#[test]
fn write_backpressure() {
    let (mut arq, link, _timer) = synced();
    let w = Waker::noop().clone();
    let mut cx = Context::from_waker(&w);
    let big = vec![0u8; MAX_PAYLOAD * (PAYLOAD_RING + 1)];
    match arq.poll_write(&mut cx, &big) {
        Poll::Ready(Ok(n)) => assert_eq!(n, MAX_PAYLOAD * (PAYLOAD_RING + 1)),
        other => panic!("expected a full ring plus staging to be accepted, got {other:?}"),
    }
    assert!(matches!(arq.poll_flush(&mut cx), Poll::Pending));
    link.feed(wire_ctl(MSG_TYPE_ACK, 0));
    assert!(matches!(arq.poll_flush(&mut cx), Poll::Pending));
    for id in 1..4u8 {
        link.feed(wire_ctl(MSG_TYPE_ACK, id));
        assert!(matches!(arq.poll_flush(&mut cx), Poll::Pending));
    }
    link.feed(wire_ctl(MSG_TYPE_ACK, 4));
    assert!(matches!(arq.poll_flush(&mut cx), Poll::Ready(Ok(()))));
    assert!(matches!(arq.state(), State::Idle));
}

#[test]
fn syn_from_peer_resets_sequence() {
    let (mut arq, link, _timer) = synced();
    let w = Waker::noop().clone();
    let mut cx = Context::from_waker(&w);
    link.feed(wire_ctl(MSG_TYPE_SYN, 7));
    assert!(matches!(arq.poll_write(&mut cx, &[]), Poll::Ready(Ok(0))));
    assert_eq!(arq.recv_pkt_id(), 6);
    let tx = link.tx();
    let frame = last_frame(&tx).expect("RYN frame on the wire");
    assert_eq!(frame[0], MSG_TYPE_RYN);
    assert_eq!(frame[1], arq.next_pkt_id());
}

#[test]
fn partial_lower_write_spans_polls() {
    let (mut arq, link, _timer) = synced();
    link.set_write_chunk(2);
    let w = Waker::noop().clone();
    let mut cx = Context::from_waker(&w);
    assert!(matches!(
        arq.poll_write(&mut cx, b"hello"),
        Poll::Ready(Ok(5))
    ));
    while link.tx().len() < 2 * HDR_LEN + 5 {
        assert!(matches!(arq.poll_flush(&mut cx), Poll::Pending));
    }
    assert_eq!(link.tx().len(), 2 * HDR_LEN + 5);
    let tx = link.tx();
    let frame = last_frame(&tx).expect("DAT frame on the wire");
    assert_eq!(frame[0], MSG_TYPE_DAT);
    assert_eq!(&frame[HDR_LEN..], b"hello");
    link.feed(wire_ctl(MSG_TYPE_ACK, 0));
    assert!(matches!(arq.poll_flush(&mut cx), Poll::Ready(Ok(()))));
}

#[test]
fn dat_not_dropped_when_fifo_full_on_idle() {
    let (mut arq, link, _timer) = synced();
    let w = Waker::noop().clone();
    let mut cx = Context::from_waker(&w);
    // Three in-order peer DATs fill the tx fifo with ACKs.
    for id in 0..TX_FIFO as u8 {
        link.feed(wire_dat(id, b"fill"));
    }
    let big = vec![0u8; MAX_PAYLOAD];
    assert!(matches!(
        arq.poll_write(&mut cx, &big),
        Poll::Ready(Ok(MAX_PAYLOAD))
    ));
    // The payload must be sent with an unbroken sequence, not dropped.
    assert!(matches!(
        arq.state(),
        State::AwaitingAck {
            pending_id: 0,
            attempts: 0,
            ..
        }
    ));
    assert_eq!(arq.send_metrics().dat, 1);
    assert_eq!(count_frames(&link.tx(), MSG_TYPE_DAT), 1);
    assert_eq!(count_frames(&link.tx(), MSG_TYPE_ACK), 3);
    link.feed(wire_ctl(MSG_TYPE_ACK, 0));
    assert!(matches!(arq.poll_flush(&mut cx), Poll::Ready(Ok(()))));
}

#[test]
fn retransmit_deferred_when_fifo_full() {
    let (mut arq, link, timer) = synced();
    link.set_write_chunk(1);
    let w = Waker::noop().clone();
    let mut cx = Context::from_waker(&w);
    assert!(matches!(
        arq.poll_write(&mut cx, b"hello"),
        Poll::Ready(Ok(5))
    ));
    assert!(matches!(arq.poll_flush(&mut cx), Poll::Pending));
    assert_eq!(link.tx().len(), HDR_LEN + 1);
    // Fill the remaining fifo slots with ACKs for two peer DATs.
    link.feed(wire_dat(0, b"aa"));
    link.feed(wire_dat(1, b"bb"));
    timer.advance(ACK_TIMEOUT_MILLIS);
    assert!(matches!(arq.poll_flush(&mut cx), Poll::Pending));
    // The retransmit cannot be queued while the fifo is full, so no
    // attempt may be consumed.
    assert!(matches!(
        arq.state(),
        State::AwaitingAck {
            pending_id: 0,
            attempts: 0,
            ..
        }
    ));
    assert_eq!(arq.send_metrics().retrans, 0);
    // With room in the fifo the retransmit goes out on the next poll.
    link.set_write_chunk(0);
    assert!(matches!(arq.poll_flush(&mut cx), Poll::Pending));
    assert!(matches!(
        arq.state(),
        State::AwaitingAck {
            pending_id: 0,
            attempts: 1,
            ..
        }
    ));
    assert_eq!(arq.send_metrics().retrans, 1);
    assert_eq!(count_frames(&link.tx(), MSG_TYPE_DAT), 2);
    link.feed(wire_ctl(MSG_TYPE_ACK, 0));
    assert!(matches!(arq.poll_flush(&mut cx), Poll::Ready(Ok(()))));
}

#[test]
fn peer_syn_drops_pending_dat() {
    let (mut arq, link, _timer) = synced();
    let w = Waker::noop().clone();
    let mut cx = Context::from_waker(&w);
    let _ = arq.poll_write(&mut cx, b"hello");
    assert!(matches!(arq.poll_flush(&mut cx), Poll::Pending));
    assert!(matches!(
        arq.state(),
        State::AwaitingAck { pending_id: 0, .. }
    ));
    // Peer re-syncs mid-stream: the pending DAT is dropped and counted as
    // lost; the link goes back to syncing.
    link.feed(wire_ctl(MSG_TYPE_SYN, 7));
    assert!(matches!(arq.poll_write(&mut cx, &[]), Poll::Ready(Ok(0))));
    assert!(matches!(arq.state(), State::Syncing));
    assert_eq!(arq.send_metrics().lost, 1);
    assert_eq!(arq.recv_pkt_id(), 6);
    let tx = link.tx();
    let frame = last_frame(&tx).expect("RYN frame on the wire");
    assert_eq!(frame[0], MSG_TYPE_RYN);
    assert_eq!(frame[1], arq.next_pkt_id());
    // RYN completes the handshake again.
    link.feed(wire_ctl(MSG_TYPE_RYN, 0));
    let mut buf = [0u8; 4];
    assert!(matches!(arq.poll_read(&mut cx, &mut buf), Poll::Pending));
    assert!(matches!(arq.state(), State::Idle));
}

#[test]
fn flush_pending_before_handshake() {
    let (mut arq, link, timer) = fresh();
    let w = Waker::noop().clone();
    let mut cx = Context::from_waker(&w);
    for _ in 0..5 {
        assert!(matches!(arq.poll_flush(&mut cx), Poll::Pending));
        timer.advance(SYNC_PERIOD_MILLIS);
    }
    // Handshake completes; flush returns Ready once the link is idle.
    link.feed(wire_ctl(MSG_TYPE_RYN, arq.next_pkt_id()));
    assert!(matches!(arq.poll_flush(&mut cx), Poll::Ready(Ok(()))));
}
