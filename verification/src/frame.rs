//! The message format. One frame is one message:
//!
//! ```text
//! [0]     type     u8
//! [1]     pkt_id   u8
//! [2]     len      u8  (payload length; 0 for control frames)
//! [3..5]  checksum     (over bytes 0..3 and the payload)
//! [5..]   payload      (DAT only)
//! ```
//!
//! The wire to the lower layer is a raw byte stream: frames are delimited by
//! their length field.

use crate::crc::{Crc, Crc16X25};
use vstd::prelude::*;
use vstd::std_specs::cmp::PartialEqSpec;

verus! {

pub const MSG_TYPE_ACK: u8 = 1;

pub const MSG_TYPE_NAK: u8 = 2;

pub const MSG_TYPE_SYN: u8 = 3;

pub const MSG_TYPE_RYN: u8 = 4;

pub const MSG_TYPE_DAT: u8 = 5;

/// Bytes before the payload.
pub const HDR_LEN: usize = 5;

/// The longest frame.
pub const MAX_FRAME: usize = 256;

/// The longest payload.
pub const MAX_PAYLOAD: usize = 251;

/// The checksum of a frame with this head (type, id, length) and payload.
pub open spec fn checksum<C: Crc>(crc: C, head: Seq<u8>, payload: Seq<u8>) -> C::Output {
    crc.finished(crc.updated(crc.updated(crc.initial(), head), payload))
}

/// A frame's bytes, given the two bytes of its checksum.
pub open spec fn frame_bytes(ty: u8, id: u8, check: Seq<u8>, payload: Seq<u8>) -> Seq<u8> {
    seq![ty, id, payload.len() as u8, check[0], check[1]] + payload
}

/// The DAT frame that carries `payload` under `id`.
pub open spec fn dat_bytes<C: Crc>(crc: C, id: u8, payload: Seq<u8>) -> Seq<u8> {
    let head = seq![MSG_TYPE_DAT, id, payload.len() as u8];
    frame_bytes(MSG_TYPE_DAT, id, crc.encoded(checksum(crc, head, payload)), payload)
}

/// The control frame of type `ty` for `id`.
pub open spec fn ctl_bytes<C: Crc>(crc: C, ty: u8, id: u8) -> Seq<u8> {
    let acc = crc.updated(crc.initial(), seq![ty, id, 0u8]);
    frame_bytes(ty, id, crc.encoded(crc.finished(acc)), Seq::<u8>::empty())
}

/// What a frame says, and whether its checksum matches.
pub struct Message {
    pub ty: u8,
    pub id: u8,
    pub payload: Seq<u8>,
    pub intact: bool,
}

/// The message in a frame's bytes.
pub open spec fn message_in<C: Crc>(crc: C, b: Seq<u8>) -> Message {
    Message {
        ty: b[0],
        id: b[1],
        payload: b.skip(5),
        intact: PartialEqSpec::eq_spec(
            &checksum(crc, b.take(3), b.skip(5)),
            &crc.decoded(seq![b[3], b[4]]),
        ),
    }
}

/// The length that a buffered header announces for its frame.
pub open spec fn announced_len(b: Seq<u8>) -> int {
    5 + b[2]
}

/// A frame ready to be sent: the first `len` bytes of `data`.
#[derive(Clone, Copy, Debug)]
pub struct Frame {
    pub data: [u8; MAX_FRAME],
    pub len: usize,
}

impl View for Frame {
    type V = Seq<u8>;

    open spec fn view(&self) -> Seq<u8> {
        self.data@.take(self.len as int)
    }
}

impl Frame {
    /// The length is one that the array can hold.
    pub open spec fn wf(&self) -> bool {
        self.len <= MAX_FRAME
    }
}

/// A payload: the first `len` bytes of `data`.
#[derive(Clone, Copy, Debug)]
pub struct Payload {
    pub data: [u8; MAX_PAYLOAD],
    pub len: usize,
}

impl View for Payload {
    type V = Seq<u8>;

    open spec fn view(&self) -> Seq<u8> {
        self.data@.take(self.len as int)
    }
}

impl Payload {
    /// The length is one that the array can hold.
    pub open spec fn wf(&self) -> bool {
        self.len <= MAX_PAYLOAD
    }
}

impl Default for Payload {
    fn default() -> (p: Payload)
        ensures
            p.wf(),
            p@ == Seq::<u8>::empty(),
            forall|i: int| 0 <= i < MAX_PAYLOAD ==> p.data@[i] == 0,
    {
        let p = Payload { data: [0u8; MAX_PAYLOAD], len: 0 };
        assert(p@ =~= Seq::<u8>::empty());
        p
    }
}

/// A received frame taken apart.
#[derive(Clone, Copy, Debug)]
pub struct Parsed {
    pub ty: u8,
    pub id: u8,
    pub payload: [u8; MAX_PAYLOAD],
    pub plen: usize,
    pub crc_ok: bool,
}

impl View for Parsed {
    type V = Message;

    open spec fn view(&self) -> Message {
        Message {
            ty: self.ty,
            id: self.id,
            payload: self.payload@.take(self.plen as int),
            intact: self.crc_ok,
        }
    }
}

impl Parsed {
    /// The length is one that the array can hold.
    pub open spec fn wf(&self) -> bool {
        self.plen <= MAX_PAYLOAD
    }
}

/// Copies `src` over the bytes of `dst` that start at `at`.
pub(crate) fn copy_to(dst: &mut [u8], at: usize, src: &[u8])
    requires
        at + src@.len() <= old(dst)@.len(),
    ensures
        final(dst)@ == old(dst)@.take(at as int) + src@ + old(dst)@.skip(at + src@.len()),
{
    let n: usize = src.len();
    let room: usize = dst.len();
    let mut i: usize = 0;
    while i < n
        invariant
            n == src@.len(),
            i <= n,
            at + n <= room,
            at + n <= old(dst)@.len(),
            dst@ == old(dst)@.take(at as int) + src@.take(i as int) + old(dst)@.skip(at + i),
        decreases n - i,
    {
        dst[at + i] = src[i];
        proof {
            assert(dst@ =~= old(dst)@.take(at as int) + src@.take(i + 1) + old(dst)@.skip(
                at + i + 1,
            ));
        }
        i += 1;
    }
    proof {
        assert(src@.take(n as int) =~= src@);
    }
}

/// The control frame of type `ty` for `pkt_id`.
pub fn ctl_frame<C: Crc>(crc: &C, ty: u8, pkt_id: u8) -> (frame: Frame)
    ensures
        frame.wf(),
        frame@ == ctl_bytes(*crc, ty, pkt_id),
        forall|i: int| frame.len <= i < MAX_FRAME ==> frame.data@[i] == 0,
{
    let head: [u8; 3] = [ty, pkt_id, 0];
    proof {
        assert(head@ =~= seq![ty, pkt_id, 0u8]);
    }
    let bytes: [u8; 2] = crc.encode(crc.finalize(crc.crc_update(crc.init(), &head)));
    let mut data: [u8; MAX_FRAME] = [0u8; MAX_FRAME];
    data[0] = ty;
    data[1] = pkt_id;
    data[3] = bytes[0];
    data[4] = bytes[1];
    let frame = Frame { data, len: HDR_LEN };
    proof {
        assert(frame@ =~= ctl_bytes(*crc, ty, pkt_id));
    }
    frame
}

/// Takes apart the bytes of one frame.
pub fn parse_frame<C: Crc>(crc: &C, b: &[u8]) -> (p: Parsed)
    requires
        crate::crc::crc_comparable::<C>(),
        HDR_LEN <= b@.len() <= MAX_FRAME,
    ensures
        p.wf(),
        p@ == message_in(*crc, b@),
        forall|i: int| p.plen <= i < MAX_PAYLOAD ==> p.payload@[i] == 0,
{
    let ty: u8 = b[0];
    let id: u8 = b[1];
    let plen: usize = b.len() - HDR_LEN;
    let check: [u8; 2] = [b[3], b[4]];
    proof {
        assert(check@ =~= seq![b@[3], b@[4]]);
    }
    let received = crc.decode(check);
    let body: &[u8] = vstd::slice::slice_subrange(b, HDR_LEN, b.len());
    let head: &[u8] = vstd::slice::slice_subrange(b, 0, 3);
    let mut payload: [u8; MAX_PAYLOAD] = [0u8; MAX_PAYLOAD];
    copy_to(&mut payload, 0, body);
    let calc = crc.finalize(crc.crc_update(crc.crc_update(crc.init(), head), body));
    proof {
        assert(body@ =~= b@.skip(5));
        assert(head@ =~= b@.take(3));
        assert(payload@.take(plen as int) =~= body@);
    }
    Parsed { ty, id, payload, plen, crc_ok: calc == received }
}

/// The DAT frame that carries `payload` under `pkt_id`.
pub fn build_dat_frame<C: Crc>(crc: &C, pkt_id: u8, payload: &[u8]) -> (frame: Frame)
    requires
        payload@.len() <= MAX_PAYLOAD,
    ensures
        frame.wf(),
        frame@ == dat_bytes(*crc, pkt_id, payload@),
        forall|i: int| frame.len <= i < MAX_FRAME ==> frame.data@[i] == 0,
{
    let head: [u8; 3] = [MSG_TYPE_DAT, pkt_id, payload.len() as u8];
    proof {
        assert(head@ =~= seq![MSG_TYPE_DAT, pkt_id, payload@.len() as u8]);
    }
    let bytes: [u8; 2] = crc.encode(
        crc.finalize(crc.crc_update(crc.crc_update(crc.init(), &head), payload)),
    );
    let mut data: [u8; MAX_FRAME] = [0u8; MAX_FRAME];
    data[0] = MSG_TYPE_DAT;
    data[1] = pkt_id;
    data[2] = payload.len() as u8;
    copy_to(&mut data, HDR_LEN, payload);
    data[3] = bytes[0];
    data[4] = bytes[1];
    let frame = Frame { data, len: HDR_LEN + payload.len() };
    proof {
        assert(frame@ =~= dat_bytes(*crc, pkt_id, payload@));
    }
    frame
}

/// Reading a DAT frame gives back what it was built from.
pub proof fn law_dat_round_trip<C: Crc>(crc: C, id: u8, payload: Seq<u8>)
    requires
        crate::crc::crc_reads_back(crc),
        payload.len() <= MAX_PAYLOAD,
    ensures
        message_in(crc, dat_bytes(crc, id, payload)) == (Message {
            ty: MSG_TYPE_DAT,
            id,
            payload,
            intact: true,
        }),
{
    let b = dat_bytes(crc, id, payload);
    let head = seq![MSG_TYPE_DAT, id, payload.len() as u8];
    let sum = checksum(crc, head, payload);
    assert(b.take(3) =~= head);
    assert(b.skip(5) =~= payload);
    assert(seq![b[3], b[4]] =~= crc.encoded(sum));
}

/// Reading a control frame gives back its type and id.
pub proof fn law_ctl_round_trip<C: Crc>(crc: C, ty: u8, id: u8)
    requires
        crate::crc::crc_lawful(crc),
    ensures
        message_in(crc, ctl_bytes(crc, ty, id)) == (Message {
            ty,
            id,
            payload: Seq::<u8>::empty(),
            intact: true,
        }),
{
    let b = ctl_bytes(crc, ty, id);
    let head = seq![ty, id, 0u8];
    let acc = crc.updated(crc.initial(), head);
    assert(b.take(3) =~= head);
    assert(b.skip(5) =~= Seq::<u8>::empty());
    assert(crc.updated(acc, Seq::<u8>::empty()) == acc);
    assert(seq![b[3], b[4]] =~= crc.encoded(crc.finished(acc)));
}

/// A frame at the start of a byte stream announces its own length, so the
/// stream falls apart into that frame and what follows it.
pub proof fn law_frames_delimit_themselves<C: Crc>(
    crc: C,
    ty: u8,
    id: u8,
    payload: Seq<u8>,
    rest: Seq<u8>,
)
    requires
        payload.len() <= MAX_PAYLOAD,
    ensures
        ({
            let dat = dat_bytes(crc, id, payload);
            let ctl = ctl_bytes(crc, ty, id);
            &&& announced_len(dat + rest) == dat.len() <= MAX_FRAME
            &&& (dat + rest).take(announced_len(dat + rest)) == dat
            &&& (dat + rest).skip(announced_len(dat + rest)) == rest
            &&& announced_len(ctl + rest) == ctl.len() == HDR_LEN
            &&& (ctl + rest).take(announced_len(ctl + rest)) == ctl
            &&& (ctl + rest).skip(announced_len(ctl + rest)) == rest
        }),
{
    let dat = dat_bytes(crc, id, payload);
    let ctl = ctl_bytes(crc, ty, id);
    assert((dat + rest).take(dat.len() as int) =~= dat);
    assert((dat + rest).skip(dat.len() as int) =~= rest);
    assert((ctl + rest).take(ctl.len() as int) =~= ctl);
    assert((ctl + rest).skip(ctl.len() as int) =~= rest);
}

/// A DAT frame in which any one byte was damaged, read at its full length, does
/// not pass for intact, whatever the byte was changed to.
pub proof fn law_damaged_byte_detected(id: u8, payload: Seq<u8>, i: int, b: u8)
    requires
        payload.len() <= MAX_PAYLOAD,
        0 <= i < dat_bytes(Crc16X25, id, payload).len(),
        dat_bytes(Crc16X25, id, payload)[i] != b,
    ensures
        !message_in(Crc16X25, dat_bytes(Crc16X25, id, payload).update(i, b)).intact,
{
    let good = dat_bytes(Crc16X25, id, payload);
    let bad = good.update(i, b);
    let head = seq![MSG_TYPE_DAT, id, payload.len() as u8];
    let covered = head + payload;
    let sum = checksum(Crc16X25, head, payload);
    crate::crc::law_x25_lawful();
    assert(seq![good[3], good[4]] =~= Crc16X25.encoded(sum));
    assert(sum == Crc16X25.decoded(Crc16X25.encoded(sum)));
    if i < 3 || i >= 5 {
        let at = if i < 3 {
            i
        } else {
            i - 2
        };
        assert(bad.take(3) + bad.skip(5) =~= covered.update(at, b));
        crate::crc::law_x25_portions(0xFFFF, head, payload);
        crate::crc::law_x25_portions(0xFFFF, bad.take(3), bad.skip(5));
        crate::crc::law_x25_detects_damaged_byte(0xFFFF, covered, at, b);
        assert(seq![bad[3], bad[4]] =~= Crc16X25.encoded(sum));
    } else {
        assert(bad.take(3) =~= head);
        assert(bad.skip(5) =~= payload);
        assert(crate::crc::from_be(good[3], good[4]) != crate::crc::from_be(bad[3], bad[4]));
    }
}

/// A control frame in which any one byte was damaged, read at its full length, does not
/// pass for intact either.
pub proof fn law_damaged_control_detected(ty: u8, id: u8, i: int, b: u8)
    requires
        0 <= i < 5,
        ctl_bytes(Crc16X25, ty, id)[i] != b,
    ensures
        !message_in(Crc16X25, ctl_bytes(Crc16X25, ty, id).update(i, b)).intact,
{
    let good = ctl_bytes(Crc16X25, ty, id);
    let bad = good.update(i, b);
    let head = seq![ty, id, 0u8];
    let none = Seq::<u8>::empty();
    let sum = Crc16X25.finished(Crc16X25.updated(Crc16X25.initial(), head));
    crate::crc::law_x25_lawful();
    assert(seq![good[3], good[4]] =~= Crc16X25.encoded(sum));
    assert(sum == Crc16X25.decoded(Crc16X25.encoded(sum)));
    assert(bad.skip(5) =~= none);
    if i < 3 {
        assert(bad.take(3) =~= head.update(i, b));
        crate::crc::law_x25_detects_damaged_byte(0xFFFF, head, i, b);
        assert(seq![bad[3], bad[4]] =~= Crc16X25.encoded(sum));
    } else {
        assert(bad.take(3) =~= head);
        assert(crate::crc::from_be(good[3], good[4]) != crate::crc::from_be(bad[3], bad[4]));
    }
}

/// Where everything stands in a frame: the type, the id and the length of the payload,
/// one byte each, two bytes that carry the checksum of those three and of the payload,
/// and the payload. A control frame has no payload.
pub proof fn law_frame_layout<C: Crc>(crc: C, ty: u8, id: u8, payload: Seq<u8>)
    requires
        crate::crc::crc_lawful(crc),
        payload.len() <= 251,
    ensures
        ({
            let b = dat_bytes(crc, id, payload);
            let sum = crc.finished(
                crc.updated(crc.updated(crc.initial(), b.take(3)), b.skip(5)),
            );
            &&& b.len() == 5 + payload.len()
            &&& b[0] == 5 && b[1] == id && b[2] == payload.len()
            &&& b.subrange(3, 5) == crc.encoded(sum)
            &&& b.skip(5) == payload
        }),
        ({
            let b = ctl_bytes(crc, ty, id);
            let sum = crc.finished(crc.updated(crc.initial(), b.take(3)));
            &&& b.len() == 5
            &&& b[0] == ty && b[1] == id && b[2] == 0
            &&& b.subrange(3, 5) == crc.encoded(sum)
        }),
{
    let b = dat_bytes(crc, id, payload);
    assert(b.take(3) =~= seq![5u8, id, payload.len() as u8]);
    assert(b.skip(5) =~= payload);
    let sum = checksum(crc, b.take(3), payload);
    assert(crc.encoded(sum).len() == 2);
    assert(b.subrange(3, 5) =~= crc.encoded(sum));
    let c = ctl_bytes(crc, ty, id);
    assert(c.take(3) =~= seq![ty, id, 0u8]);
    let sum = crc.finished(crc.updated(crc.initial(), c.take(3)));
    assert(crc.encoded(sum).len() == 2);
    assert(c.subrange(3, 5) =~= crc.encoded(sum));
}

/// What is read from the bytes of a frame: each part from where it stands, and the frame
/// is intact exactly where the checksum that it carries compares equal to that of its
/// first three bytes and its payload.
pub proof fn law_frame_is_read<C: Crc>(crc: C, b: Seq<u8>)
    requires
        b.len() >= 5,
    ensures
        ({
            let msg = message_in(crc, b);
            &&& msg.ty == b[0] && msg.id == b[1]
            &&& b == b.take(5) + msg.payload
            &&& msg.intact <==> PartialEqSpec::eq_spec(
                &crc.finished(
                    crc.updated(crc.updated(crc.initial(), b.take(3)), msg.payload),
                ),
                &crc.decoded(b.subrange(3, 5)),
            )
        }),
{
    assert(b =~= b.take(5) + b.skip(5));
    assert(b.subrange(3, 5) =~= seq![b[3], b[4]]);
}

} // verus!
