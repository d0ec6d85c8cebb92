//! Time as the machine sees it: a clock that is only ever read.
//!
//! There are no background tasks. Deadlines are stored as [`Instant`] and
//! compared with a fresh reading whenever the machine is polled.

use vstd::prelude::*;

verus! {

/// A point in time, in milliseconds since some fixed origin.
#[derive(Clone, Copy, PartialEq, Eq, PartialOrd, Ord, Debug, Structural)]
pub struct Instant(u64);

/// A span of time, in milliseconds.
#[derive(Clone, Copy, PartialEq, Eq, PartialOrd, Ord, Debug, Structural)]
pub struct Duration(u64);

/// `a + b`, held at the largest `u64` where the sum does not fit.
pub open spec fn saturating_sum(a: u64, b: u64) -> u64 {
    if a + b <= u64::MAX {
        (a + b) as u64
    } else {
        u64::MAX
    }
}

impl Instant {
    /// Milliseconds since the origin.
    pub closed spec fn millis(self) -> u64 {
        self.0
    }

    /// The instant `ms` milliseconds after the origin.
    pub closed spec fn of_millis(ms: u64) -> Instant {
        Instant(ms)
    }

    /// The instant `ms` milliseconds after this one.
    pub open spec fn later(self, ms: u64) -> Instant {
        Instant::of_millis(saturating_sum(self.millis(), ms))
    }

    /// The reading of a clock that started `elapsed` milliseconds ago: the low
    /// 64 bits of that number.
    pub open spec fn of_elapsed(elapsed: u128) -> Instant {
        Instant::of_millis((elapsed % 0x1_0000_0000_0000_0000) as u64)
    }

    /// Milliseconds since the origin.
    pub fn as_millis(&self) -> (ms: u64)
        ensures
            ms == self.millis(),
    {
        self.0
    }

    /// The reading of a clock that started `elapsed` milliseconds ago: the low
    /// 64 bits of that number.
    pub fn from_elapsed(elapsed: u128) -> (t: Instant)
        ensures
            t == Instant::of_elapsed(elapsed),
    {
        let ms: u64 = #[verifier::truncate] (elapsed as u64);
        assert(elapsed as u64 == elapsed % 0x1_0000_0000_0000_0000u128) by (bit_vector);
        Instant(ms)
    }
}

impl Duration {
    /// The length in milliseconds.
    pub closed spec fn millis(self) -> u64 {
        self.0
    }

    /// A span of `ms` milliseconds.
    pub closed spec fn of_millis(ms: u64) -> Duration {
        Duration(ms)
    }

    /// A span of `ms` milliseconds.
    pub fn from_millis(ms: u64) -> (d: Duration)
        ensures
            d == Duration::of_millis(ms),
            d.millis() == ms,
    {
        Duration(ms)
    }

    /// A span of `secs` seconds, which must fit in 64 bits of milliseconds.
    pub fn from_secs(secs: u64) -> (d: Duration)
        requires
            secs * 1000 <= u64::MAX,
        ensures
            d == Duration::of_millis((secs * 1000) as u64),
            d.millis() == secs * 1000,
    {
        Duration(secs * 1000)
    }

    /// The length in milliseconds.
    pub fn as_millis(&self) -> (ms: u64)
        ensures
            ms == self.millis(),
    {
        self.0
    }
}

/// An instant is its number of milliseconds, and nothing else.
pub broadcast proof fn lemma_instant_of_millis(ms: u64)
    ensures
        (#[trigger] Instant::of_millis(ms)).millis() == ms,
{
}

/// Two instants with equal milliseconds are the same instant.
pub broadcast proof fn lemma_instant_millis(t: Instant)
    ensures
        Instant::of_millis(#[trigger] t.millis()) == t,
{
}

/// A span is its number of milliseconds, and nothing else.
pub broadcast proof fn lemma_duration_of_millis(ms: u64)
    ensures
        (#[trigger] Duration::of_millis(ms)).millis() == ms,
{
}

pub broadcast group group_time {
    lemma_instant_of_millis,
    lemma_instant_millis,
    lemma_duration_of_millis,
}

/// A clock shows the milliseconds that have passed, and starts over after 2^64 of them.
pub proof fn law_clock_shows_elapsed(elapsed: u128)
    ensures
        elapsed <= u64::MAX ==> Instant::of_elapsed(elapsed).millis() == elapsed,
        elapsed + 0x1_0000_0000_0000_0000 <= u128::MAX ==> Instant::of_elapsed(
            (elapsed + 0x1_0000_0000_0000_0000) as u128,
        ) == Instant::of_elapsed(elapsed),
{
}

impl Default for Instant {
    fn default() -> (t: Instant)
        ensures
            t == Instant::of_millis(0),
    {
        Instant(0)
    }
}

impl core::ops::Add<Duration> for Instant {
    type Output = Instant;

    fn add(self, d: Duration) -> (t: Instant) {
        Instant(self.0.saturating_add(d.0))
    }
}

impl vstd::std_specs::ops::AddSpecImpl<Duration> for Instant {
    open spec fn obeys_add_spec() -> bool {
        true
    }

    open spec fn add_req(self, d: Duration) -> bool {
        true
    }

    open spec fn add_spec(self, d: Duration) -> Instant {
        self.later(d.millis())
    }
}

/// A clock that the machine reads.
pub trait Timer {
    /// `t` is a reading that this clock can give.
    open spec fn may_read(&self, t: Instant) -> bool {
        vstd::pervasive::arbitrary()
    }

    /// Reads the clock.
    fn now(&self) -> (t: Instant)
        ensures
            self.may_read(t),
    ;
}

/// `std::time::Instant`: a reading of the system's monotonic clock, held as an
/// opaque value.
#[verifier::external_type_specification]
#[verifier::external_body]
pub struct ExSystemInstant(std::time::Instant);

/// `std::time::Instant::now`. The result is the present moment, so nothing is
/// claimed of it.
#[verifier::external_body]
fn system_now() -> (start: std::time::Instant) {
    std::time::Instant::now()
}

/// The span of system time from `earlier` to `later`.
pub uninterp spec fn span_between(
    later: std::time::Instant,
    earlier: std::time::Instant,
) -> core::time::Duration;

/// `std::time::Instant::duration_since`: the span from `earlier` to `later`, which
/// is a function of the two alone.
#[verifier::external_body]
fn span_since(later: &std::time::Instant, earlier: &std::time::Instant) -> (span:
    core::time::Duration)
    ensures
        span == span_between(*later, *earlier),
{
    later.duration_since(*earlier)
}

/// The number of whole milliseconds in a span of system time.
pub uninterp spec fn whole_millis(span: core::time::Duration) -> u128;

/// `core::time::Duration::as_millis`: the number of whole milliseconds in `span`,
/// which is a function of `span` alone.
#[verifier::external_body]
fn span_millis(span: &core::time::Duration) -> (ms: u128)
    ensures
        ms == whole_millis(*span),
{
    span.as_millis()
}

/// The system's monotonic clock, counted from when the timer was made.
#[derive(Clone, Copy)]
pub struct TokioTimer {
    start: std::time::Instant,
}

impl TokioTimer {
    /// The moment that the timer counts from.
    pub closed spec fn origin(&self) -> std::time::Instant {
        self.start
    }

    /// A timer that counts from `start`.
    pub fn starting_at(start: std::time::Instant) -> (timer: TokioTimer)
        ensures
            timer.origin() == start,
    {
        TokioTimer { start }
    }

    /// The reading at a given moment: the low 64 bits of the number of whole
    /// milliseconds from the origin to `at`.
    pub fn reading_at(&self, at: std::time::Instant) -> (t: Instant)
        ensures
            t == Instant::of_elapsed(whole_millis(span_between(at, self.origin()))),
    {
        Instant::from_elapsed(span_millis(&span_since(&at, &self.start)))
    }

    /// A timer that counts from the present moment. Which moment that is depends
    /// on when the call is made, so nothing is claimed of it.
    pub fn new() -> (timer: TokioTimer) {
        TokioTimer::starting_at(system_now())
    }
}

impl Default for TokioTimer {
    fn default() -> (timer: TokioTimer) {
        TokioTimer::new()
    }
}

impl Timer for TokioTimer {
    /// The low 64 bits of the number of whole milliseconds from the origin to some
    /// moment.
    open spec fn may_read(&self, t: Instant) -> bool {
        exists|at: std::time::Instant|
            t == Instant::of_elapsed(whole_millis(#[trigger] span_between(at, self.origin())))
    }

    /// The reading at the present moment. Which moment that is depends on when the call
    /// is made.
    fn now(&self) -> (t: Instant)
        ensures
            exists|at: std::time::Instant|
                t == Instant::of_elapsed(whole_millis(#[trigger] span_between(at, self.origin()))),
    {
        self.reading_at(system_now())
    }
}

} // verus!
