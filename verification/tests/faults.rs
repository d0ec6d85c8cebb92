//! One end of a link over a lower layer that answers from a script.

use arq::frame::{
    build_dat_frame, ctl_frame, MAX_FRAME, MAX_PAYLOAD, MSG_TYPE_ACK, MSG_TYPE_DAT, MSG_TYPE_NAK,
    MSG_TYPE_RYN, MSG_TYPE_SYN,
};
use arq::{
    Arq, ArqError, Crc, Crc16X25, Duration, Instant, Lower, State, Timer, ACK_TIMEOUT_MILLIS,
    PAYLOAD_RING, SYNC_PERIOD_MILLIS, TX_FIFO,
};
use std::cell::{Cell, RefCell};
use std::rc::Rc;
use std::task::{Context, Poll, Waker};

#[derive(Default)]
struct Script {
    rx: Vec<u8>,
    tx: Vec<u8>,
    rooms: Vec<usize>,
    read_chunk: usize,
    read_reply: Option<Poll<Result<usize, u8>>>,
    write_reply: Option<Poll<Result<usize, u8>>>,
    flush_reply: Option<Poll<Result<(), u8>>>,
    flushes: usize,
    last_was_pending: bool,
}

#[derive(Clone, Default)]
struct ScriptLink(Rc<RefCell<Script>>);

impl Lower for ScriptLink {
    type Error = u8;

    fn poll_read(&mut self, _cx: &mut Context<'_>, buf: &mut [u8]) -> Poll<Result<usize, u8>> {
        let mut s = self.0.borrow_mut();
        s.rooms.push(buf.len());
        if s.rx.is_empty() {
            let reply = s.read_reply.take().unwrap_or(Poll::Pending);
            s.last_was_pending = reply.is_pending();
            return reply;
        }
        s.last_was_pending = false;
        let chunk = if s.read_chunk == 0 { buf.len() } else { s.read_chunk };
        let n = buf.len().min(s.rx.len()).min(chunk);
        buf[..n].copy_from_slice(&s.rx[..n]);
        s.rx.drain(..n);
        Poll::Ready(Ok(n))
    }

    fn poll_write(&mut self, _cx: &mut Context<'_>, buf: &[u8]) -> Poll<Result<usize, u8>> {
        let mut s = self.0.borrow_mut();
        s.last_was_pending = false;
        if let Some(reply) = s.write_reply {
            s.last_was_pending = reply.is_pending();
            return reply;
        }
        s.tx.extend_from_slice(buf);
        Poll::Ready(Ok(buf.len()))
    }

    fn poll_flush(&mut self, _cx: &mut Context<'_>) -> Poll<Result<(), u8>> {
        let mut s = self.0.borrow_mut();
        s.flushes += 1;
        s.flush_reply.take().unwrap_or(Poll::Ready(Ok(())))
    }
}

#[derive(Clone, Default)]
struct ScriptTimer(Rc<Cell<u64>>);

impl Timer for ScriptTimer {
    fn now(&self) -> Instant {
        Instant::default() + Duration::from_millis(self.0.get())
    }
}

type ScriptArq = Arq<ScriptLink, ScriptTimer, Crc16X25>;

fn unsynced(max_resend: usize) -> (ScriptArq, ScriptLink, ScriptTimer) {
    let link = ScriptLink::default();
    let timer = ScriptTimer::default();
    let arq = Arq::new(link.clone(), timer.clone(), Crc16X25, max_resend);
    (arq, link, timer)
}

fn ready(max_resend: usize) -> (ScriptArq, ScriptLink, ScriptTimer) {
    let (mut arq, link, timer) = unsynced(max_resend);
    feed(&link, &ctl(MSG_TYPE_RYN, 0));
    let w = Waker::noop().clone();
    let mut cx = Context::from_waker(&w);
    assert!(matches!(arq.poll_write(&mut cx, &[]), Poll::Ready(Ok(0))));
    assert_eq!(arq.state(), State::Idle);
    link.0.borrow_mut().tx.clear();
    (arq, link, timer)
}

fn feed(link: &ScriptLink, bytes: &[u8]) {
    link.0.borrow_mut().rx.extend_from_slice(bytes);
}

fn sent(link: &ScriptLink) -> Vec<u8> {
    std::mem::take(&mut link.0.borrow_mut().tx)
}

fn ctl(ty: u8, id: u8) -> Vec<u8> {
    let f = ctl_frame(&Crc16X25, ty, id);
    f.data[..f.len].to_vec()
}

fn dat(id: u8, payload: &[u8]) -> Vec<u8> {
    let f = build_dat_frame(&Crc16X25, id, payload);
    f.data[..f.len].to_vec()
}

#[test]
fn read_error_is_passed_on() {
    let (mut arq, link, _timer) = ready(3);
    let w = Waker::noop().clone();
    let mut cx = Context::from_waker(&w);
    let mut buf = [0u8; 4];
    link.0.borrow_mut().read_reply = Some(Poll::Ready(Err(17)));
    assert_eq!(arq.poll_read(&mut cx, &mut buf), Poll::Ready(Err(ArqError::Io(17))));
    link.0.borrow_mut().read_reply = Some(Poll::Ready(Err(18)));
    assert_eq!(arq.poll_write(&mut cx, b"x"), Poll::Ready(Err(ArqError::Io(18))));
    link.0.borrow_mut().read_reply = Some(Poll::Ready(Err(19)));
    assert_eq!(arq.poll_flush(&mut cx), Poll::Ready(Err(ArqError::Io(19))));
    link.0.borrow_mut().read_reply = Some(Poll::Ready(Err(20)));
    assert_eq!(arq.poll(&mut cx, &mut buf), Poll::Ready(Err(ArqError::Io(20))));
}

#[test]
fn read_of_nothing_closes() {
    let (mut arq, link, _timer) = ready(3);
    let w = Waker::noop().clone();
    let mut cx = Context::from_waker(&w);
    let mut buf = [0u8; 4];
    link.0.borrow_mut().read_reply = Some(Poll::Ready(Ok(0)));
    assert_eq!(arq.poll_read(&mut cx, &mut buf), Poll::Ready(Err(ArqError::Closed)));
}

#[test]
fn write_error_is_passed_on() {
    let (mut arq, link, _timer) = ready(3);
    let w = Waker::noop().clone();
    let mut cx = Context::from_waker(&w);
    assert_eq!(arq.poll_write(&mut cx, b"x"), Poll::Ready(Ok(1)));
    link.0.borrow_mut().write_reply = Some(Poll::Ready(Err(5)));
    assert_eq!(arq.poll_flush(&mut cx), Poll::Ready(Err(ArqError::Io(5))));
    // The frame stays in line and goes out once the layer takes it.
    link.0.borrow_mut().write_reply = None;
    assert_eq!(arq.poll_flush(&mut cx), Poll::Pending);
    assert_eq!(sent(&link), dat(0, b"x"));
}

#[test]
fn write_of_nothing_closes() {
    let (mut arq, link, _timer) = ready(3);
    let w = Waker::noop().clone();
    let mut cx = Context::from_waker(&w);
    assert_eq!(arq.poll_write(&mut cx, b"x"), Poll::Ready(Ok(1)));
    link.0.borrow_mut().write_reply = Some(Poll::Ready(Ok(0)));
    assert_eq!(arq.poll_flush(&mut cx), Poll::Ready(Err(ArqError::Closed)));
}

#[test]
fn flush_replies_of_the_lower_layer() {
    let (mut arq, link, _timer) = ready(3);
    let w = Waker::noop().clone();
    let mut cx = Context::from_waker(&w);
    link.0.borrow_mut().flush_reply = Some(Poll::Pending);
    assert_eq!(arq.poll_flush(&mut cx), Poll::Pending);
    link.0.borrow_mut().flush_reply = Some(Poll::Ready(Err(9)));
    assert_eq!(arq.poll_flush(&mut cx), Poll::Ready(Err(ArqError::Io(9))));
    assert_eq!(arq.poll_flush(&mut cx), Poll::Ready(Ok(())));
    assert_eq!(link.0.borrow().flushes, 3);
}

#[test]
fn longest_and_too_long_frames() {
    let (mut arq, link, _timer) = ready(3);
    let w = Waker::noop().clone();
    let mut cx = Context::from_waker(&w);
    let mut buf = [0u8; 512];
    let longest = vec![7u8; MAX_PAYLOAD];
    feed(&link, &dat(0, &longest));
    assert_eq!(arq.poll_read(&mut cx, &mut buf), Poll::Ready(Ok(MAX_PAYLOAD)));
    assert_eq!(&buf[..MAX_PAYLOAD], &longest[..]);
    for len in 252..=255u8 {
        feed(&link, &[MSG_TYPE_DAT, 0, len, 0, 0]);
        assert_eq!(arq.poll_read(&mut cx, &mut buf), Poll::Ready(Err(ArqError::Framing)));
    }
    assert_eq!(arq.recv_metrics().framing, 4);
    // What was buffered is dropped, and the link goes on.
    feed(&link, &dat(1, b"on"));
    assert_eq!(arq.poll_read(&mut cx, &mut buf), Poll::Ready(Ok(2)));
}

#[test]
fn timeout_without_attempts() {
    let (mut arq, link, timer) = ready(0);
    let w = Waker::noop().clone();
    let mut cx = Context::from_waker(&w);
    assert_eq!(arq.poll_write(&mut cx, b"x"), Poll::Ready(Ok(1)));
    assert_eq!(arq.poll_flush(&mut cx), Poll::Pending);
    timer.0.set(ACK_TIMEOUT_MILLIS - 1);
    assert_eq!(arq.poll_flush(&mut cx), Poll::Pending);
    timer.0.set(ACK_TIMEOUT_MILLIS);
    assert_eq!(arq.poll_flush(&mut cx), Poll::Ready(Err(ArqError::Timeout)));
    assert_eq!(arq.state(), State::Idle);
    assert_eq!((arq.send_metrics().lost, arq.send_metrics().retrans), (1, 0));
    assert_eq!(sent(&link), dat(0, b"x"));
    // The id of the payload that was given up is used up.
    assert_eq!(arq.next_pkt_id(), 1);
}

#[test]
fn timeout_gives_way_to_delivered_bytes() {
    let (mut arq, link, timer) = ready(0);
    let w = Waker::noop().clone();
    let mut cx = Context::from_waker(&w);
    assert_eq!(arq.poll_write(&mut cx, b"x"), Poll::Ready(Ok(1)));
    assert_eq!(arq.poll_flush(&mut cx), Poll::Pending);
    timer.0.set(ACK_TIMEOUT_MILLIS);
    feed(&link, &dat(0, b"peer"));
    let mut buf = [0u8; 8];
    assert_eq!(arq.poll_read(&mut cx, &mut buf), Poll::Ready(Ok(4)));
    assert_eq!(arq.send_metrics().lost, 1);
    assert_eq!(arq.poll_read(&mut cx, &mut buf), Poll::Pending);
}

#[test]
fn retransmission_repeats_the_frame() {
    let (mut arq, link, timer) = ready(3);
    let w = Waker::noop().clone();
    let mut cx = Context::from_waker(&w);
    assert_eq!(arq.poll_write(&mut cx, b"again"), Poll::Ready(Ok(5)));
    assert_eq!(arq.poll_flush(&mut cx), Poll::Pending);
    let first = sent(&link);
    timer.0.set(ACK_TIMEOUT_MILLIS);
    assert_eq!(arq.poll_flush(&mut cx), Poll::Pending);
    assert_eq!(sent(&link), first);
    feed(&link, &ctl(MSG_TYPE_NAK, 0));
    assert_eq!(arq.poll_flush(&mut cx), Poll::Pending);
    assert_eq!(sent(&link), first);
    assert_eq!(arq.send_metrics().retrans, 2);
    assert_eq!(arq.send_metrics().dat, 1);
}

#[test]
fn foreign_replies_change_nothing() {
    let (mut arq, link, _timer) = ready(3);
    let w = Waker::noop().clone();
    let mut cx = Context::from_waker(&w);
    assert_eq!(arq.poll_write(&mut cx, b"x"), Poll::Ready(Ok(1)));
    assert_eq!(arq.poll_flush(&mut cx), Poll::Pending);
    let state = arq.state();
    let counters = arq.send_metrics();
    feed(&link, &ctl(MSG_TYPE_ACK, 1));
    feed(&link, &ctl(MSG_TYPE_NAK, 255));
    feed(&link, &ctl(99, 0));
    assert_eq!(arq.poll_flush(&mut cx), Poll::Pending);
    assert_eq!(arq.state(), state);
    assert_eq!(arq.send_metrics(), counters);
}

#[test]
fn damaged_control_frames_get_no_reply() {
    let (mut arq, link, _timer) = ready(3);
    let w = Waker::noop().clone();
    let mut cx = Context::from_waker(&w);
    let mut bad = ctl(MSG_TYPE_SYN, 7);
    bad[4] ^= 1;
    feed(&link, &bad);
    assert_eq!(arq.poll_write(&mut cx, &[]), Poll::Ready(Ok(0)));
    assert_eq!(arq.recv_metrics().crc, 1);
    assert_eq!(arq.recv_pkt_id(), 255);
    assert_eq!(sent(&link), Vec::<u8>::new());
}

#[test]
fn refused_payload_is_taken_later() {
    let (mut arq, link, _timer) = ready(3);
    let w = Waker::noop().clone();
    let mut cx = Context::from_waker(&w);
    let last = PAYLOAD_RING as u8;
    for id in 0..=last {
        feed(&link, &dat(id, &[id]));
    }
    assert_eq!(arq.poll_write(&mut cx, &[]), Poll::Ready(Ok(0)));
    assert_eq!(arq.recv_metrics().backpressure, 1);
    assert_eq!(arq.send_metrics().nak, 1);
    assert!(sent(&link).ends_with(&ctl(MSG_TYPE_NAK, last)));
    // The refused id stays the expected one.
    assert_eq!(arq.recv_pkt_id(), last - 1);
    let mut buf = [0u8; 1];
    assert_eq!(arq.poll_read(&mut cx, &mut buf), Poll::Ready(Ok(1)));
    assert_eq!(buf[0], 0);
    // Sent again with room for it, it is taken and acknowledged.
    feed(&link, &dat(last, &[last]));
    for id in 1..=last {
        assert_eq!(arq.poll_read(&mut cx, &mut buf), Poll::Ready(Ok(1)));
        assert_eq!(buf[0], id);
    }
    assert_eq!(arq.poll_read(&mut cx, &mut buf), Poll::Pending);
    assert_eq!(sent(&link), ctl(MSG_TYPE_ACK, last));
    assert_eq!(arq.recv_metrics().dat, PAYLOAD_RING as u32 + 1);
    assert_eq!(arq.recv_metrics().dup, 0);
}

#[test]
fn empty_payload_does_not_hide_what_is_behind_it() {
    let (mut arq, link, _timer) = ready(3);
    let w = Waker::noop().clone();
    let mut cx = Context::from_waker(&w);
    feed(&link, &dat(0, b""));
    feed(&link, &dat(1, b""));
    feed(&link, &dat(2, b"abc"));
    assert_eq!(arq.poll_write(&mut cx, &[]), Poll::Ready(Ok(0)));
    // All three are queued, and the lower layer has nothing more.
    let mut buf = [0u8; 4];
    assert_eq!(arq.poll_read(&mut cx, &mut buf), Poll::Ready(Ok(3)));
    assert_eq!(&buf[..3], b"abc");
    assert_eq!(arq.poll_read(&mut cx, &mut buf), Poll::Pending);
}

#[test]
fn cutting_up_the_stream_makes_no_difference() {
    let mut stream = ctl(MSG_TYPE_ACK, 9);
    stream.extend(dat(0, b"first"));
    stream.extend(dat(0, b"first"));
    let mut bad = dat(1, b"second");
    bad[6] ^= 1;
    stream.extend(bad);
    stream.extend([MSG_TYPE_DAT, 1, 3, 0]);
    let mut outcomes = Vec::new();
    for chunk in [0, 1, 2, 3, 7, 11] {
        let (mut arq, link, _timer) = ready(3);
        let w = Waker::noop().clone();
        let mut cx = Context::from_waker(&w);
        link.0.borrow_mut().read_chunk = chunk;
        feed(&link, &stream);
        let mut buf = [0u8; 16];
        assert_eq!(arq.poll_read(&mut cx, &mut buf), Poll::Ready(Ok(5)));
        outcomes.push((buf, arq.recv_metrics(), arq.send_metrics(), sent(&link)));
    }
    for outcome in &outcomes {
        assert_eq!(outcome, &outcomes[0]);
    }
}

#[test]
fn cutting_up_a_stream_that_fills_the_wire_makes_no_difference() {
    let mut stream = Vec::new();
    for id in 0..TX_FIFO as u8 {
        stream.extend(dat(id, &[id]));
    }
    let mut outcomes = Vec::new();
    for chunk in [0, 1, 4, stream.len()] {
        let (mut arq, link, _timer) = ready(3);
        let w = Waker::noop().clone();
        let mut cx = Context::from_waker(&w);
        link.0.borrow_mut().write_reply = Some(Poll::Pending);
        link.0.borrow_mut().read_chunk = chunk;
        feed(&link, &stream);
        assert_eq!(arq.poll(&mut cx, &mut []), Poll::Pending);
        outcomes.push((arq.recv_metrics(), arq.send_metrics(), arq.recv_pkt_id()));
    }
    for outcome in &outcomes {
        assert_eq!(outcome, &outcomes[0]);
    }
    assert_eq!(outcomes[0].0.dat, TX_FIFO as u32);
}

#[test]
fn ids_count_up_over_a_lifetime() {
    let (mut arq, link, timer) = unsynced(0);
    let w = Waker::noop().clone();
    let mut cx = Context::from_waker(&w);
    // Before a RYN nothing but SYN goes out.
    assert_eq!(arq.poll_write(&mut cx, b"a"), Poll::Ready(Ok(1)));
    assert_eq!(arq.poll_flush(&mut cx), Poll::Pending);
    assert_eq!(sent(&link), ctl(MSG_TYPE_SYN, 0));
    feed(&link, &ctl(MSG_TYPE_RYN, 0));
    assert_eq!(arq.poll_flush(&mut cx), Poll::Pending);
    assert_eq!(sent(&link), dat(0, b"a"));
    // The next one goes out once this one is acknowledged under its own id,
    assert_eq!(arq.poll_write(&mut cx, b"b"), Poll::Ready(Ok(1)));
    feed(&link, &ctl(MSG_TYPE_ACK, 1));
    assert_eq!(arq.poll_flush(&mut cx), Poll::Pending);
    assert_eq!(sent(&link), Vec::<u8>::new());
    feed(&link, &ctl(MSG_TYPE_ACK, 0));
    assert_eq!(arq.poll_flush(&mut cx), Poll::Pending);
    assert_eq!(sent(&link), dat(1, b"b"));
    // or given up,
    assert_eq!(arq.poll_write(&mut cx, b"c"), Poll::Ready(Ok(1)));
    timer.0.set(ACK_TIMEOUT_MILLIS);
    assert_eq!(arq.poll_flush(&mut cx), Poll::Ready(Err(ArqError::Timeout)));
    assert_eq!(arq.poll_flush(&mut cx), Poll::Pending);
    assert_eq!(sent(&link), dat(2, b"c"));
    // or dropped because the peer starts over.
    assert_eq!(arq.poll_write(&mut cx, b"d"), Poll::Ready(Ok(1)));
    feed(&link, &ctl(MSG_TYPE_SYN, 0));
    feed(&link, &ctl(MSG_TYPE_RYN, 0));
    assert_eq!(arq.poll_flush(&mut cx), Poll::Pending);
    let mut out = ctl(MSG_TYPE_RYN, 3);
    out.extend(dat(3, b"d"));
    assert_eq!(sent(&link), out);
}

#[test]
fn empty_payload_is_acknowledged_and_dropped() {
    let (mut arq, link, _timer) = ready(3);
    let w = Waker::noop().clone();
    let mut cx = Context::from_waker(&w);
    feed(&link, &dat(0, b""));
    feed(&link, &dat(1, b"next"));
    let mut buf = [0u8; 8];
    assert_eq!(arq.poll_read(&mut cx, &mut buf), Poll::Ready(Ok(4)));
    assert_eq!(&buf[..4], b"next");
    assert_eq!(arq.recv_metrics().dat, 2);
    let mut acks = ctl(MSG_TYPE_ACK, 0);
    acks.extend(ctl(MSG_TYPE_ACK, 1));
    assert_eq!(sent(&link), acks);
}

#[test]
fn reading_into_nothing() {
    let (mut arq, link, _timer) = ready(3);
    let w = Waker::noop().clone();
    let mut cx = Context::from_waker(&w);
    feed(&link, &dat(0, b"abc"));
    let calls = link.0.borrow().rooms.len();
    assert_eq!(arq.poll_read(&mut cx, &mut []), Poll::Ready(Ok(0)));
    assert_eq!(link.0.borrow().rooms.len(), calls);
    // Polling with no buffer drives the machine but hands nothing over.
    assert_eq!(arq.poll(&mut cx, &mut []), Poll::Pending);
    assert_eq!(arq.recv_metrics().dat, 1);
    let mut buf = [0u8; 2];
    assert_eq!(arq.poll(&mut cx, &mut buf), Poll::Ready(Ok(())));
    assert_eq!(&buf, b"ab");
}

#[test]
fn rest_of_the_buffer_is_untouched() {
    let (mut arq, link, _timer) = ready(3);
    let w = Waker::noop().clone();
    let mut cx = Context::from_waker(&w);
    feed(&link, &dat(0, b"abc"));
    let mut buf = [9u8; 6];
    assert_eq!(arq.poll_read(&mut cx, &mut buf), Poll::Ready(Ok(3)));
    assert_eq!(&buf, b"abc\x09\x09\x09");
}

#[test]
fn frames_may_come_byte_by_byte() {
    let (mut arq, link, _timer) = ready(3);
    let w = Waker::noop().clone();
    let mut cx = Context::from_waker(&w);
    link.0.borrow_mut().read_chunk = 1;
    feed(&link, &dat(0, b"abc"));
    feed(&link, &dat(1, b"def"));
    let mut buf = [0u8; 8];
    assert_eq!(arq.poll_read(&mut cx, &mut buf), Poll::Ready(Ok(3)));
    assert_eq!(arq.poll_read(&mut cx, &mut buf), Poll::Ready(Ok(3)));
    assert_eq!(&buf[..3], b"def");
}

#[test]
fn reads_offer_the_room_that_is_left() {
    let (mut arq, link, _timer) = ready(3);
    let w = Waker::noop().clone();
    let mut cx = Context::from_waker(&w);
    link.0.borrow_mut().rooms.clear();
    feed(&link, &[MSG_TYPE_DAT, 0, 9]);
    let mut buf = [0u8; 8];
    assert_eq!(arq.poll_read(&mut cx, &mut buf), Poll::Pending);
    assert_eq!(link.0.borrow().rooms, vec![MAX_FRAME, MAX_FRAME - 3]);
}

#[test]
fn no_reply_is_dropped_on_a_full_wire() {
    let (mut arq, link, _timer) = ready(3);
    let w = Waker::noop().clone();
    let mut cx = Context::from_waker(&w);
    link.0.borrow_mut().write_reply = Some(Poll::Pending);
    for id in 0..(TX_FIFO + 1) as u8 {
        feed(&link, &dat(id, &[id]));
    }
    let mut buf = [0u8; 1];
    assert_eq!(arq.poll(&mut cx, &mut []), Poll::Pending);
    assert_eq!(arq.recv_metrics().dat, TX_FIFO as u32);
    link.0.borrow_mut().write_reply = None;
    assert_eq!(arq.poll_read(&mut cx, &mut buf), Poll::Ready(Ok(1)));
    assert_eq!(arq.poll_read(&mut cx, &mut buf), Poll::Ready(Ok(1)));
    let mut acks = Vec::new();
    for id in 0..(TX_FIFO + 1) as u8 {
        acks.extend(ctl(MSG_TYPE_ACK, id));
    }
    assert_eq!(sent(&link), acks);
}

#[test]
fn pending_poll_waits_for_the_lower_layer() {
    let (mut arq, link, timer) = ready(3);
    let w = Waker::noop().clone();
    let mut cx = Context::from_waker(&w);
    assert_eq!(arq.poll(&mut cx, &mut []), Poll::Pending);
    assert!(link.0.borrow().last_was_pending);
    assert_eq!(arq.poll_write(&mut cx, b"x"), Poll::Ready(Ok(1)));
    assert_eq!(arq.poll_flush(&mut cx), Poll::Pending);
    assert!(link.0.borrow().last_was_pending);
    // The frame that is due cannot be written: the write is what is waited for.
    timer.0.set(ACK_TIMEOUT_MILLIS);
    link.0.borrow_mut().write_reply = Some(Poll::Pending);
    for id in 0..TX_FIFO as u8 {
        feed(&link, &dat(id, &[id]));
    }
    assert_eq!(arq.poll_flush(&mut cx), Poll::Pending);
    assert!(link.0.borrow().last_was_pending);
    assert!(link.0.borrow().tx.ends_with(&dat(0, b"x")));
}

#[test]
fn writing_takes_what_there_is_room_for() {
    let (mut arq, _link, _timer) = unsynced(3);
    let w = Waker::noop().clone();
    let mut cx = Context::from_waker(&w);
    let room = MAX_PAYLOAD * (PAYLOAD_RING + 1);
    let big = vec![1u8; room + 10];
    assert_eq!(arq.poll_write(&mut cx, &big[..10]), Poll::Ready(Ok(10)));
    assert_eq!(arq.poll_write(&mut cx, &big), Poll::Ready(Ok(room - 10)));
    assert_eq!(arq.poll_write(&mut cx, &big), Poll::Pending);
    assert_eq!(arq.poll_write(&mut cx, &[]), Poll::Ready(Ok(0)));
}

#[test]
fn whole_payloads_go_out_without_a_flush() {
    let (mut arq, link, _timer) = ready(3);
    let w = Waker::noop().clone();
    let mut cx = Context::from_waker(&w);
    let big: Vec<u8> = (0..300).map(|i| i as u8).collect();
    assert_eq!(arq.poll_write(&mut cx, &big), Poll::Ready(Ok(300)));
    assert_eq!(sent(&link), dat(0, &big[..MAX_PAYLOAD]));
    feed(&link, &ctl(MSG_TYPE_ACK, 0));
    assert_eq!(arq.poll_flush(&mut cx), Poll::Pending);
    assert_eq!(sent(&link), dat(1, &big[MAX_PAYLOAD..]));
}

#[test]
fn syn_keeps_its_period() {
    let (mut arq, link, timer) = unsynced(3);
    let w = Waker::noop().clone();
    let mut cx = Context::from_waker(&w);
    assert_eq!(arq.poll_write(&mut cx, &[]), Poll::Ready(Ok(0)));
    assert_eq!(sent(&link), ctl(MSG_TYPE_SYN, 0));
    timer.0.set(SYNC_PERIOD_MILLIS - 1);
    assert_eq!(arq.poll_write(&mut cx, &[]), Poll::Ready(Ok(0)));
    assert_eq!(sent(&link), Vec::<u8>::new());
    timer.0.set(SYNC_PERIOD_MILLIS);
    assert_eq!(arq.poll_write(&mut cx, &[]), Poll::Ready(Ok(0)));
    assert_eq!(sent(&link), ctl(MSG_TYPE_SYN, 0));
}

#[test]
fn syn_and_ryn_at_the_ends_of_the_id_range() {
    let (mut arq, link, _timer) = ready(3);
    let w = Waker::noop().clone();
    let mut cx = Context::from_waker(&w);
    feed(&link, &ctl(MSG_TYPE_SYN, 0));
    assert_eq!(arq.poll_write(&mut cx, &[]), Poll::Ready(Ok(0)));
    assert_eq!(arq.recv_pkt_id(), 255);
    assert_eq!(sent(&link), ctl(MSG_TYPE_RYN, 0));
    feed(&link, &ctl(MSG_TYPE_RYN, 255));
    assert_eq!(arq.poll_write(&mut cx, &[]), Poll::Ready(Ok(0)));
    assert_eq!(arq.recv_pkt_id(), 254);
    assert_eq!(arq.state(), State::Idle);
}

/// A checksum of another kind: the sum of all bytes, of which the low byte and
/// its complement travel.
#[derive(Clone, Copy, Debug)]
struct Sum;

impl Crc for Sum {
    type Output = u8;

    fn init(&self) -> u8 {
        0
    }

    fn crc_update(&self, acc: u8, data: &[u8]) -> u8 {
        data.iter().fold(acc, |a, b| a.wrapping_add(*b))
    }

    fn finalize(&self, acc: u8) -> u8 {
        acc
    }

    fn encode(&self, value: u8) -> [u8; 2] {
        [value, !value]
    }

    fn decode(&self, bytes: [u8; 2]) -> u8 {
        bytes[0]
    }
}

#[test]
fn another_checksum() {
    let link = ScriptLink::default();
    let mut arq = Arq::new(link.clone(), ScriptTimer::default(), Sum, 3);
    let w = Waker::noop().clone();
    let mut cx = Context::from_waker(&w);
    assert_eq!(arq.poll_write(&mut cx, &[]), Poll::Ready(Ok(0)));
    assert_eq!(sent(&link), vec![MSG_TYPE_SYN, 0, 0, 3, 252]);
    let f = build_dat_frame(&Sum, 0, b"ab");
    assert_eq!(&f.data[..f.len], &[5, 0, 2, 202, 53, b'a', b'b']);
    feed(&link, &f.data[..f.len]);
    let mut buf = [0u8; 4];
    assert_eq!(arq.poll_read(&mut cx, &mut buf), Poll::Ready(Ok(2)));
}
