//! Frame checksums: the interface the machine needs, and CRC-16/X-25.

use vstd::prelude::*;
use vstd::std_specs::cmp::PartialEqSpec;

verus! {

/// A checksum over a stream of bytes that travels as two bytes.
///
/// The specification functions name the values that the methods compute, so
/// that frames can be described without running anything.
pub trait Crc: Clone + Copy + core::fmt::Debug {
    /// The running value, and the finished checksum.
    type Output: Copy + Eq + core::fmt::Debug;

    /// The running value before any byte.
    open spec fn initial(&self) -> Self::Output {
        vstd::pervasive::arbitrary()
    }

    /// The running value after `data`.
    open spec fn updated(&self, acc: Self::Output, data: Seq<u8>) -> Self::Output {
        vstd::pervasive::arbitrary()
    }

    /// The checksum that a running value stands for.
    open spec fn finished(&self, acc: Self::Output) -> Self::Output {
        vstd::pervasive::arbitrary()
    }

    /// The two bytes that carry a checksum.
    open spec fn encoded(&self, value: Self::Output) -> Seq<u8> {
        vstd::pervasive::arbitrary()
    }

    /// The checksum that two bytes carry.
    open spec fn decoded(&self, bytes: Seq<u8>) -> Self::Output {
        vstd::pervasive::arbitrary()
    }

    fn init(&self) -> (acc: Self::Output)
        ensures
            acc == self.initial(),
    ;

    fn crc_update(&self, acc: Self::Output, data: &[u8]) -> (out: Self::Output)
        ensures
            out == self.updated(acc, data@),
    ;

    fn finalize(&self, acc: Self::Output) -> (out: Self::Output)
        ensures
            out == self.finished(acc),
    ;

    fn encode(&self, value: Self::Output) -> (bytes: [u8; 2])
        ensures
            bytes@ == self.encoded(value),
    ;

    fn decode(&self, bytes: [u8; 2]) -> (value: Self::Output)
        ensures
            value == self.decoded(bytes@),
    ;
}

/// Comparing two checksums with `==` does what its specification says.
pub open spec fn crc_comparable<C: Crc>() -> bool {
    <C::Output as PartialEqSpec>::obeys_eq_spec()
}

/// A checksum read back from its two bytes compares equal to itself.
pub open spec fn crc_reads_back<C: Crc>(crc: C) -> bool {
    &&& forall|v: C::Output| (#[trigger] crc.encoded(v)).len() == 2
    &&& forall|v: C::Output|
        PartialEqSpec::eq_spec(&v, &#[trigger] crc.decoded(crc.encoded(v)))
}

/// What makes a checksum usable on a link: it reads back, and feeding it nothing
/// changes nothing.
pub open spec fn crc_lawful<C: Crc>(crc: C) -> bool {
    &&& crc_reads_back(crc)
    &&& forall|acc: C::Output| #[trigger] crc.updated(acc, Seq::<u8>::empty()) == acc
}

/// One step of the X-25 shift register: the low bit leaves, and where it was
/// set the reflected polynomial is added.
pub open spec fn x25_bit(acc: u16) -> u16 {
    if acc & 1 == 1 {
        (acc >> 1) ^ 0x8408
    } else {
        acc >> 1
    }
}

/// `n` steps of the shift register.
pub open spec fn x25_bits(acc: u16, n: nat) -> u16
    decreases n,
{
    if n == 0 {
        acc
    } else {
        x25_bit(x25_bits(acc, (n - 1) as nat))
    }
}

/// The register after one byte, low bit first.
pub open spec fn x25_byte(acc: u16, b: u8) -> u16 {
    x25_bits(acc ^ (b as u16), 8)
}

/// The register after a sequence of bytes.
pub open spec fn x25_bytes(acc: u16, data: Seq<u8>) -> u16
    decreases data.len(),
{
    if data.len() == 0 {
        acc
    } else {
        x25_byte(x25_bytes(acc, data.drop_last()), data.last())
    }
}

/// A 16-bit number from its high and its low byte.
pub open spec fn from_be(high: u8, low: u8) -> u16 {
    (high * 256 + low) as u16
}

/// CRC-16/X-25 (SDLC): reflected polynomial 0x8408, register preset to ones,
/// result complemented, sent high byte first.
#[derive(Clone, Copy, Debug)]
pub struct Crc16X25;

impl Crc for Crc16X25 {
    type Output = u16;

    open spec fn initial(&self) -> u16 {
        0xFFFF
    }

    open spec fn updated(&self, acc: u16, data: Seq<u8>) -> u16 {
        x25_bytes(acc, data)
    }

    open spec fn finished(&self, acc: u16) -> u16 {
        !acc
    }

    open spec fn encoded(&self, value: u16) -> Seq<u8> {
        seq![(value / 256) as u8, (value % 256) as u8]
    }

    open spec fn decoded(&self, bytes: Seq<u8>) -> u16 {
        from_be(bytes[0], bytes[1])
    }

    fn init(&self) -> (acc: u16) {
        0xFFFF
    }

    fn crc_update(&self, acc: u16, data: &[u8]) -> (out: u16) {
        let mut reg: u16 = acc;
        let mut i: usize = 0;
        proof {
            assert(data@.take(0) =~= Seq::<u8>::empty());
        }
        while i < data.len()
            invariant
                i <= data@.len(),
                reg == x25_bytes(acc, data@.take(i as int)),
            decreases data@.len() - i,
        {
            let ghost before = reg;
            reg = reg ^ (data[i] as u16);
            let mut k: u8 = 0;
            while k < 8
                invariant
                    k <= 8,
                    i < data@.len(),
                    reg == x25_bits(before ^ (data@[i as int] as u16), k as nat),
                decreases 8 - k,
            {
                proof {
                    lemma_x25_bit(reg);
                }
                reg = (reg >> 1) ^ ((reg & 1) * 0x8408);
                k += 1;
            }
            proof {
                let next = data@.take(i + 1);
                assert(next.drop_last() =~= data@.take(i as int));
                assert(next.last() == data@[i as int]);
            }
            i += 1;
        }
        proof {
            assert(data@.take(i as int) =~= data@);
        }
        reg
    }

    fn finalize(&self, acc: u16) -> (out: u16) {
        !acc
    }

    fn encode(&self, value: u16) -> (bytes: [u8; 2]) {
        let bytes: [u8; 2] = [(value / 256) as u8, (value % 256) as u8];
        assert(bytes@ =~= self.encoded(value));
        bytes
    }

    fn decode(&self, bytes: [u8; 2]) -> (value: u16) {
        bytes[0] as u16 * 256 + bytes[1] as u16
    }
}

/// The branch-free form of the register step.
proof fn lemma_x25_bit(acc: u16)
    ensures
        acc & 1 <= 1,
        (acc >> 1) ^ ((acc & 1) * 0x8408) as u16 == x25_bit(acc),
{
    assert(acc & 1 == 0 || acc & 1 == 1) by (bit_vector);
    assert((acc >> 1) ^ 0 == acc >> 1) by (bit_vector);
}

/// CRC-16/X-25 is fit for use on a link.
pub proof fn law_x25_lawful()
    ensures
        crc_lawful(Crc16X25),
{
    assert forall|v: u16| v == #[trigger] Crc16X25.decoded(Crc16X25.encoded(v)) by {
        let bytes = Crc16X25.encoded(v);
        assert(bytes[0] == v / 256 && bytes[1] == v % 256);
    }
}

/// Feeding bytes in two portions is feeding them at once.
pub proof fn law_x25_portions(acc: u16, a: Seq<u8>, b: Seq<u8>)
    ensures
        x25_bytes(acc, a + b) == x25_bytes(x25_bytes(acc, a), b),
    decreases b.len(),
{
    if b.len() == 0 {
        assert(a + b =~= a);
    } else {
        law_x25_portions(acc, a, b.drop_last());
        assert((a + b).drop_last() =~= a + b.drop_last());
    }
}

proof fn lemma_x25_bits_injective(a: u16, b: u16, n: nat)
    requires
        a != b,
    ensures
        x25_bits(a, n) != x25_bits(b, n),
    decreases n,
{
    if n > 0 {
        lemma_x25_bits_injective(a, b, (n - 1) as nat);
        let x = x25_bits(a, (n - 1) as nat);
        let y = x25_bits(b, (n - 1) as nat);
        assert(x != y ==> (if x & 1 == 1 {
            (x >> 1) ^ 0x8408
        } else {
            x >> 1
        }) != (if y & 1 == 1 {
            (y >> 1) ^ 0x8408
        } else {
            y >> 1
        })) by (bit_vector);
    }
}

/// Equal bytes keep different registers different.
proof fn lemma_x25_keeps_apart(a: u16, b: u16, data: Seq<u8>)
    requires
        a != b,
    ensures
        x25_bytes(a, data) != x25_bytes(b, data),
    decreases data.len(),
{
    if data.len() > 0 {
        lemma_x25_keeps_apart(a, b, data.drop_last());
        let x = x25_bytes(a, data.drop_last());
        let y = x25_bytes(b, data.drop_last());
        let c = data.last() as u16;
        assert(x != y ==> x ^ c != y ^ c) by (bit_vector);
        lemma_x25_bits_injective(x ^ c, y ^ c, 8);
    }
}

/// Damage to a single byte always changes the X-25 checksum.
pub proof fn law_x25_detects_damaged_byte(acc: u16, data: Seq<u8>, i: int, b: u8)
    requires
        0 <= i < data.len(),
        data[i] != b,
    ensures
        Crc16X25.finished(Crc16X25.updated(acc, data.update(i, b))) != Crc16X25.finished(
            Crc16X25.updated(acc, data),
        ),
{
    let head = data.take(i);
    let tail = data.skip(i + 1);
    let good = data[i];
    assert(data =~= head.push(good) + tail);
    assert(data.update(i, b) =~= head.push(b) + tail);
    assert(head.push(good).drop_last() =~= head && head.push(b).drop_last() =~= head);
    law_x25_portions(acc, head.push(good), tail);
    law_x25_portions(acc, head.push(b), tail);
    let reg = x25_bytes(acc, head);
    assert(good != b ==> reg ^ (good as u16) != reg ^ (b as u16)) by (bit_vector);
    lemma_x25_bits_injective(reg ^ (good as u16), reg ^ (b as u16), 8);
    lemma_x25_keeps_apart(x25_byte(reg, good), x25_byte(reg, b), tail);
    let p = x25_bytes(acc, data);
    let q = x25_bytes(acc, data.update(i, b));
    assert(p != q ==> !p != !q) by (bit_vector);
}

/// The register starts as all ones, the checksum is its complement, and its high byte
/// goes first.
pub proof fn law_x25_ends(acc: u16)
    ensures
        Crc16X25.initial() == 0xFFFF,
        Crc16X25.finished(acc) + acc == 0xFFFF,
        ({
            let bytes = Crc16X25.encoded(acc);
            &&& bytes.len() == 2
            &&& bytes[0] * 256 + bytes[1] == acc
            &&& Crc16X25.decoded(bytes) == acc
        }),
{
    assert(!acc == 0xFFFF - acc) by (bit_vector);
    let bytes = Crc16X25.encoded(acc);
    assert(bytes[0] == acc / 256 && bytes[1] == acc % 256);
}

/// Data followed by its own checksum, low byte first, always leaves the same register:
/// the residue of the polynomial.
pub proof fn law_x25_residue(data: Seq<u8>)
    ensures
        ({
            let sum = Crc16X25.finished(Crc16X25.updated(Crc16X25.initial(), data));
            Crc16X25.updated(
                Crc16X25.initial(),
                data + seq![(sum % 256) as u8, (sum / 256) as u8],
            ) == 0xF0B8
        }),
{
    let reg = x25_bytes(0xFFFF, data);
    let sum = !reg;
    let low = (sum % 256) as u8;
    let high = (sum / 256) as u8;
    let after = seq![low, high];
    law_x25_portions(0xFFFF, data, after);
    assert(after.drop_last() =~= seq![low]);
    assert(seq![low].drop_last() =~= Seq::<u8>::empty());
    assert(x25_bytes(reg, Seq::<u8>::empty()) == reg);
    assert(x25_bytes(reg, seq![low]) == x25_byte(reg, low));
    assert(x25_bytes(reg, after) == x25_byte(x25_byte(reg, low), high));
    let r0 = reg ^ (low as u16);
    reveal_with_fuel(x25_bits, 9);
    let r1 = x25_bits(r0, 1);
    let r2 = x25_bits(r0, 2);
    let r3 = x25_bits(r0, 3);
    let r4 = x25_bits(r0, 4);
    let r5 = x25_bits(r0, 5);
    let r6 = x25_bits(r0, 6);
    let r7 = x25_bits(r0, 7);
    let r8 = x25_bits(r0, 8);
    let s0 = r8 ^ (high as u16);
    let s1 = x25_bits(s0, 1);
    let s2 = x25_bits(s0, 2);
    let s3 = x25_bits(s0, 3);
    let s4 = x25_bits(s0, 4);
    let s5 = x25_bits(s0, 5);
    let s6 = x25_bits(s0, 6);
    let s7 = x25_bits(s0, 7);
    let s8 = x25_bits(s0, 8);
    assert(s8 == 0xF0B8) by (bit_vector)
        requires
            low == ((!reg) % 256) as u8,
            high == ((!reg) / 256) as u8,
            r0 == reg ^ (low as u16),
            r1 == x25_bit(r0),
            r2 == x25_bit(r1),
            r3 == x25_bit(r2),
            r4 == x25_bit(r3),
            r5 == x25_bit(r4),
            r6 == x25_bit(r5),
            r7 == x25_bit(r6),
            r8 == x25_bit(r7),
            s0 == r8 ^ (high as u16),
            s1 == x25_bit(s0),
            s2 == x25_bit(s1),
            s3 == x25_bit(s2),
            s4 == x25_bit(s3),
            s5 == x25_bit(s4),
            s6 == x25_bit(s5),
            s7 == x25_bit(s6),
            s8 == x25_bit(s7),
    ;
}

} // verus!
