//! The parts of a link by themselves: checksum, frames, queue, time, errors.

use arq::fifo::Fifo;
use arq::frame::{
    build_dat_frame, ctl_frame, parse_frame, Payload, HDR_LEN, MAX_FRAME, MAX_PAYLOAD, MSG_TYPE_ACK,
    MSG_TYPE_DAT, MSG_TYPE_NAK, MSG_TYPE_RYN, MSG_TYPE_SYN,
};
use arq::{
    ArqError, Crc, Crc16X25, Duration, FaultKind, Instant, RecvMetrics, SendMetrics, Timer,
    TokioTimer,
};

#[test]
fn checksum_of_nothing_is_zero() {
    let crc = Crc16X25;
    assert_eq!(crc.init(), 0xFFFF);
    assert_eq!(crc.finalize(crc.init()), 0);
    assert_eq!(crc.crc_update(0x1234, &[]), 0x1234);
}

#[test]
fn checksum_goes_over_portions() {
    let crc = Crc16X25;
    let whole = crc.crc_update(crc.init(), b"123456789");
    let parts = crc.crc_update(crc.crc_update(crc.init(), b"1234"), b"56789");
    assert_eq!(whole, parts);
}

#[test]
fn checksum_travels_high_byte_first() {
    let crc = Crc16X25;
    assert_eq!(crc.encode(0x906E), [0x90, 0x6E]);
    assert_eq!(crc.decode([0x90, 0x6E]), 0x906E);
    for v in [0u16, 1, 0x00FF, 0xFF00, 0xFFFF] {
        assert_eq!(crc.decode(crc.encode(v)), v);
    }
}

#[test]
fn control_frames_byte_for_byte() {
    let cases: [(u8, u8, [u8; 5]); 6] = [
        (MSG_TYPE_ACK, 0, [1, 0, 0, 0x9C, 0x10]),
        (MSG_TYPE_NAK, 0, [2, 0, 0, 0x73, 0x74]),
        (MSG_TYPE_SYN, 0, [3, 0, 0, 0x29, 0xA8]),
        (MSG_TYPE_RYN, 0, [4, 0, 0, 0xA5, 0xAD]),
        (MSG_TYPE_ACK, 255, [1, 255, 0, 0x63, 0xD0]),
        (MSG_TYPE_SYN, 255, [3, 255, 0, 0xD6, 0x68]),
    ];
    for (ty, id, bytes) in cases {
        let f = ctl_frame(&Crc16X25, ty, id);
        assert_eq!(&f.data[..f.len], &bytes);
    }
}

#[test]
fn data_frames_byte_for_byte() {
    let f = build_dat_frame(&Crc16X25, 0, b"hello");
    assert_eq!(&f.data[..f.len], b"\x05\x00\x05\xFB\x5Fhello");
    let f = build_dat_frame(&Crc16X25, 7, b"");
    assert_eq!(&f.data[..f.len], &[5, 7, 0, 0xB2, 0x79]);
}

#[test]
fn rest_of_a_frame_is_zero() {
    let f = ctl_frame(&Crc16X25, MSG_TYPE_SYN, 0);
    assert!(f.data[f.len..].iter().all(|b| *b == 0));
    let f = build_dat_frame(&Crc16X25, 0, b"a");
    assert_eq!(&f.data[..f.len], &[5, 0, 1, 0xF9, 0xDE, 0x61]);
    assert!(f.data[f.len..].iter().all(|b| *b == 0));
    let p = parse_frame(&Crc16X25, &f.data[..f.len]);
    assert!(p.payload[p.plen..].iter().all(|b| *b == 0));
}

#[test]
fn data_frame_round_trip() {
    let long: Vec<u8> = (0..MAX_PAYLOAD).map(|i| i as u8).collect();
    for payload in [&b""[..], b"x", b"hello", &long] {
        let f = build_dat_frame(&Crc16X25, 200, payload);
        assert_eq!(f.len, HDR_LEN + payload.len());
        let p = parse_frame(&Crc16X25, &f.data[..f.len]);
        assert!(p.crc_ok);
        assert_eq!((p.ty, p.id, p.plen), (MSG_TYPE_DAT, 200, payload.len()));
        assert_eq!(&p.payload[..p.plen], payload);
    }
    assert_eq!(build_dat_frame(&Crc16X25, 0, &long).len, MAX_FRAME);
}

#[test]
fn control_frame_round_trip() {
    for ty in [MSG_TYPE_ACK, MSG_TYPE_NAK, MSG_TYPE_SYN, MSG_TYPE_RYN] {
        let f = ctl_frame(&Crc16X25, ty, 9);
        let p = parse_frame(&Crc16X25, &f.data[..f.len]);
        assert!(p.crc_ok);
        assert_eq!((p.ty, p.id, p.plen), (ty, 9, 0));
    }
}

#[test]
fn every_damaged_byte_is_detected() {
    let f = build_dat_frame(&Crc16X25, 3, b"some payload");
    for i in 0..f.len {
        for flip in 1..=255u8 {
            let mut bad = f.data;
            bad[i] ^= flip;
            assert!(!parse_frame(&Crc16X25, &bad[..f.len]).crc_ok);
        }
    }
}

#[test]
fn frames_announce_their_length() {
    let dat = build_dat_frame(&Crc16X25, 0, b"abc");
    assert_eq!(HDR_LEN + dat.data[2] as usize, dat.len);
    let ctl = ctl_frame(&Crc16X25, MSG_TYPE_ACK, 0);
    assert_eq!(HDR_LEN + ctl.data[2] as usize, ctl.len);
}

#[test]
fn empty_payload() {
    assert_eq!(Payload::default().len, 0);
}

#[test]
fn queue_is_first_in_first_out() {
    let mut q: Fifo<u32, 3> = Fifo::new(0);
    assert!(q.is_empty() && !q.is_full());
    assert_eq!(q.pop(), None);
    assert_eq!(q.front(), None);
    assert!(q.push(1) && q.push(2) && q.push(3));
    assert!(q.is_full() && !q.is_empty());
    assert!(!q.push(4));
    assert_eq!(q.front(), Some(&1));
    assert_eq!(q.pop(), Some(1));
    assert!(q.push(5));
    assert_eq!((q.pop(), q.pop(), q.pop(), q.pop()), (Some(2), Some(3), Some(5), None));
}

#[test]
fn queue_wraps_around_many_times() {
    let mut q: Fifo<usize, 4> = Fifo::new(0);
    for i in 0..100 {
        assert!(q.push(i));
        assert!(q.push(i + 1000));
        assert_eq!(q.pop(), Some(i));
        assert_eq!(q.pop(), Some(i + 1000));
    }
}

#[test]
fn queue_without_slots() {
    let mut q: Fifo<u8, 0> = Fifo::new(0);
    assert!(q.is_empty() && q.is_full());
    assert!(!q.push(1));
    assert_eq!(q.pop(), None);
}

#[test]
fn time_adds_and_saturates() {
    let t = Instant::default();
    assert_eq!(t.as_millis(), 0);
    let t = t + Duration::from_millis(1500);
    assert_eq!(t.as_millis(), 1500);
    assert_eq!((t + Duration::from_secs(2)).as_millis(), 3500);
    assert_eq!((t + Duration::from_millis(u64::MAX)).as_millis(), u64::MAX);
    assert!(t < t + Duration::from_millis(1));
}

#[test]
fn durations() {
    assert_eq!(Duration::from_secs(3).as_millis(), 3000);
    assert_eq!(Duration::from_millis(7).as_millis(), 7);
    assert!(Duration::from_millis(999) < Duration::from_secs(1));
}

#[test]
fn elapsed_time_keeps_its_low_bits() {
    assert_eq!(Instant::from_elapsed(0).as_millis(), 0);
    assert_eq!(Instant::from_elapsed(u64::MAX as u128).as_millis(), u64::MAX);
    assert_eq!(Instant::from_elapsed((1u128 << 64) + 5).as_millis(), 5);
}

#[test]
fn system_timer_counts_milliseconds() {
    let timer = TokioTimer::new();
    let before = timer.now();
    let start = std::time::Instant::now();
    while start.elapsed().as_millis() < 30 {}
    let after = timer.now();
    assert!(after.as_millis() >= before.as_millis() + 30);
    assert!(after.as_millis() < 20_000);
    let copy = timer;
    assert!(copy.now() >= after);
    assert!(TokioTimer::default().now().as_millis() < 20_000);
}

#[test]
fn system_timer_counts_from_its_start() {
    let start = std::time::Instant::now();
    let timer = TokioTimer::starting_at(start);
    while start.elapsed().as_millis() < 30 {}
    let before = start.elapsed().as_millis() as u64;
    let reading = timer.now().as_millis();
    let after = start.elapsed().as_millis() as u64;
    assert!(before <= reading && reading <= after);
    // The reading at a given moment is fixed, and is zero before the origin.
    let origin = start + std::time::Duration::from_millis(500);
    let timer = TokioTimer::starting_at(origin);
    let at = origin + std::time::Duration::from_micros(1_234_999);
    assert_eq!(timer.reading_at(at).as_millis(), 1234);
    assert_eq!(timer.reading_at(origin).as_millis(), 0);
    assert_eq!(timer.reading_at(start).as_millis(), 0);
}

#[test]
fn error_texts_and_kinds() {
    let io: ArqError<u8> = ArqError::Io(3);
    assert_eq!(io.message(), "io error: ");
    assert_eq!((io.std_kind(), io.embedded_kind()), (None, None));
    let framing: ArqError = ArqError::Framing;
    assert_eq!(framing.message(), "arq framing error");
    assert_eq!(framing.std_kind(), Some(FaultKind::InvalidData));
    assert_eq!(framing.embedded_kind(), Some(FaultKind::InvalidData));
    let timeout: ArqError = ArqError::Timeout;
    assert_eq!(timeout.message(), "arq ack timeout");
    assert_eq!(timeout.std_kind(), Some(FaultKind::TimedOut));
    assert_eq!(timeout.embedded_kind(), Some(FaultKind::TimedOut));
    let closed: ArqError = ArqError::Closed;
    assert_eq!(closed.message(), "arq link closed");
    assert_eq!(closed.std_kind(), Some(FaultKind::UnexpectedEof));
    assert_eq!(closed.embedded_kind(), Some(FaultKind::BrokenPipe));
}

#[test]
fn counters_start_at_zero() {
    let s = SendMetrics::default();
    assert_eq!(
        s,
        SendMetrics { dat: 0, retrans: 0, syn: 0, ack: 0, nak: 0, ryn: 0, lost: 0 }
    );
    let r = RecvMetrics::default();
    assert_eq!(
        r,
        RecvMetrics { dat: 0, framing: 0, crc: 0, dup: 0, backpressure: 0 }
    );
}
