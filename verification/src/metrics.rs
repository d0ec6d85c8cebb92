//! Counters kept by the machine, read as snapshots. They count modulo 2^32.

use vstd::prelude::*;

verus! {

/// Frames sent, by kind, and payloads given up on.
#[derive(Clone, Copy, Debug, PartialEq, Eq, Structural)]
pub struct SendMetrics {
    pub dat: u32,
    pub retrans: u32,
    pub syn: u32,
    pub ack: u32,
    pub nak: u32,
    pub ryn: u32,
    pub lost: u32,
}

/// Payloads received, and what went wrong with the others.
#[derive(Clone, Copy, Debug, PartialEq, Eq, Structural)]
pub struct RecvMetrics {
    pub dat: u32,
    pub framing: u32,
    pub crc: u32,
    pub dup: u32,
    pub backpressure: u32,
}

/// One more than `n`, modulo 2^32.
pub open spec fn counted(n: u32) -> u32 {
    if n == u32::MAX {
        0
    } else {
        (n + 1) as u32
    }
}

impl SendMetrics {
    /// All counters at zero.
    pub open spec fn zero() -> SendMetrics {
        SendMetrics { dat: 0, retrans: 0, syn: 0, ack: 0, nak: 0, ryn: 0, lost: 0 }
    }
}

impl RecvMetrics {
    /// All counters at zero.
    pub open spec fn zero() -> RecvMetrics {
        RecvMetrics { dat: 0, framing: 0, crc: 0, dup: 0, backpressure: 0 }
    }
}

impl Default for SendMetrics {
    fn default() -> (m: SendMetrics)
        ensures
            m == SendMetrics::zero(),
    {
        SendMetrics { dat: 0, retrans: 0, syn: 0, ack: 0, nak: 0, ryn: 0, lost: 0 }
    }
}

impl Default for RecvMetrics {
    fn default() -> (m: RecvMetrics)
        ensures
            m == RecvMetrics::zero(),
    {
        RecvMetrics { dat: 0, framing: 0, crc: 0, dup: 0, backpressure: 0 }
    }
}

} // verus!
