//! Bitemporal data management: valid time (business time) and
//! transaction time (system time).

use vstd::prelude::*;
use crate::error::{append_decimal, decimal_text};

verus! {

/// Opaque clock reading taken from the operating system.
#[verifier::external_type_specification]
#[verifier::external_body]
pub struct ExSystemTime(std::time::SystemTime);

/// Reads the system clock (`std::time::SystemTime::now`). Nothing is
/// promised of the reading: it depends on the machine and the moment.
#[verifier::external_body]
pub(crate) fn system_time_now() -> std::time::SystemTime {
    std::time::SystemTime::now()
}

/// Calls `SystemTime::duration_since(UNIX_EPOCH)`; the error case (a clock
/// before the epoch) is handed back as `None`. Nothing is promised of the
/// duration itself.
#[verifier::external_body]
pub(crate) fn duration_since_unix_epoch(t: std::time::SystemTime) -> Option<std::time::Duration> {
    t.duration_since(std::time::UNIX_EPOCH).ok()
}

/// Calls `Duration::as_secs`: the whole seconds of the duration.
#[verifier::external_body]
pub(crate) fn duration_whole_secs(d: &std::time::Duration) -> u64 {
    d.as_secs()
}

/// Calls `Duration::subsec_nanos`, which std documents to be below one
/// billion.
#[verifier::external_body]
pub(crate) fn duration_subsec_nanos(d: &std::time::Duration) -> (n: u32)
    ensures
        n < 1_000_000_000,
{
    d.subsec_nanos()
}

/// What `Duration::from_nanos` builds from a nanosecond count.
pub uninterp spec fn std_duration_from_nanos(n: u64) -> std::time::Duration;

/// Calls `Duration::from_nanos`; the result is a function of the count
/// alone.
#[verifier::external_body]
fn duration_from_nanos(n: u64) -> (d: std::time::Duration)
    ensures
        d == std_duration_from_nanos(n),
{
    std::time::Duration::from_nanos(n)
}

/// A nanosecond-precision timestamp.
#[derive(Debug, Clone, Copy, PartialEq, Eq, PartialOrd, Ord, Hash, Structural)]
pub struct Timestamp {
    pub seconds: i64,
    pub nanos: u32,
}

/// The order of timestamps: by seconds, then by nanoseconds.
pub open spec fn ts_lt(a: Timestamp, b: Timestamp) -> bool {
    a.seconds < b.seconds || (a.seconds == b.seconds && a.nanos < b.nanos)
}

pub open spec fn ts_le(a: Timestamp, b: Timestamp) -> bool {
    ts_lt(a, b) || a == b
}

/// The nanoseconds since the epoch that a timestamp stands for.
pub open spec fn ts_nanos(t: Timestamp) -> int {
    t.seconds * 1_000_000_000 + t.nanos
}

pub open spec fn forever_spec() -> Timestamp {
    Timestamp { seconds: i64::MAX, nanos: 999_999_999 }
}

/// `a < b` in the order of timestamps.
pub fn ts_less(a: &Timestamp, b: &Timestamp) -> (r: bool)
    ensures
        r == ts_lt(*a, *b),
{
    a.seconds < b.seconds || (a.seconds == b.seconds && a.nanos < b.nanos)
}

/// `a <= b` in the order of timestamps.
pub fn ts_less_eq(a: &Timestamp, b: &Timestamp) -> (r: bool)
    ensures
        r == ts_le(*a, *b),
{
    a.seconds < b.seconds || (a.seconds == b.seconds && a.nanos <= b.nanos)
}

impl Timestamp {
    /// The current wall-clock time. A clock set before the Unix epoch
    /// reads as the epoch itself.
    pub fn now() -> (t: Timestamp)
        ensures
            t.nanos < 1_000_000_000,
    {
        let st = system_time_now();
        match duration_since_unix_epoch(st) {
            Some(d) => {
                let secs = duration_whole_secs(&d);
                let nanos = duration_subsec_nanos(&d);
                Timestamp { seconds: secs as i64, nanos }
            },
            None => Timestamp { seconds: 0, nanos: 0 },
        }
    }

    pub fn from_secs(seconds: i64) -> (t: Timestamp)
        ensures
            t == (Timestamp { seconds, nanos: 0 }),
    {
        Timestamp { seconds, nanos: 0 }
    }

    /// The timestamp that stands for "forever" (the open end of valid time).
    pub fn forever() -> (t: Timestamp)
        ensures
            t == forever_spec(),
    {
        Timestamp { seconds: i64::MAX, nanos: 999_999_999 }
    }

    pub fn as_nanos(&self) -> (n: u128)
        requires
            self.seconds >= 0,
        ensures
            n == ts_nanos(*self),
    {
        assert(self.seconds * 1_000_000_000 <= i64::MAX * 1_000_000_000) by (nonlinear_arith)
            requires
                self.seconds <= i64::MAX,
                self.seconds >= 0,
        ;
        (self.seconds as u128) * 1_000_000_000 + (self.nanos as u128)
    }

    /// The time elapsed from `other` to `self`, or `None` when `other` is
    /// later than `self`.
    pub fn duration_since(&self, other: Timestamp) -> (d: Option<std::time::Duration>)
        requires
            self.seconds >= 0,
            other.seconds >= 0,
        ensures
            d.is_some() == (ts_nanos(other) <= ts_nanos(*self)),
            d.is_some() ==> d == Some(
                std_duration_from_nanos((ts_nanos(*self) - ts_nanos(other)) as u64),
            ),
    {
        let self_nanos = self.as_nanos();
        let other_nanos = other.as_nanos();
        match self_nanos.checked_sub(other_nanos) {
            Some(n) => Some(duration_from_nanos(n as u64)),
            None => None,
        }
    }
}

impl Default for Timestamp {
    fn default() -> (t: Timestamp)
        ensures
            t.nanos < 1_000_000_000,
    {
        Timestamp::now()
    }
}

/// The decimal rendering of an integer, with a minus sign when negative.
pub open spec fn signed_decimal(i: int) -> Seq<char> {
    if i < 0 {
        seq!['-'] + decimal_text((-i) as nat)
    } else {
        decimal_text(i as nat)
    }
}

impl Timestamp {
    /// The text form: the seconds, a dot, then the nanoseconds, both in
    /// decimal (the nanoseconds without leading zeros).
    pub fn to_string(&self) -> (s: String)
        ensures
            s@ == signed_decimal(self.seconds as int) + seq!['.'] + decimal_text(self.nanos as nat),
    {
        proof {
            reveal_strlit("");
            reveal_strlit("-");
            reveal_strlit(".");
        }
        let mut s = String::from_str("");
        if self.seconds < 0 {
            s.append("-");
            let mag: u64 = if self.seconds == i64::MIN {
                9223372036854775808u64
            } else {
                (0 - self.seconds) as u64
            };
            append_decimal(&mut s, mag);
        } else {
            append_decimal(&mut s, self.seconds as u64);
        }
        s.append(".");
        append_decimal(&mut s, self.nanos as u64);
        s
    }
}

/// The last second of the calendar that UTC readings are kept within (the
/// end of year 262142), in seconds since the epoch.
pub const UTC_MAX_SECONDS: i64 = 8210266876799;

/// The wall clock as a UTC reading: the system clock's time since the
/// epoch. A clock before the epoch reads as the epoch itself, and one past
/// the end of the representable calendar reads as its last instant.
pub(crate) fn utc_now() -> (t: Timestamp)
    ensures
        0 <= t.seconds <= UTC_MAX_SECONDS,
        t.nanos < 1_000_000_000,
{
    match duration_since_unix_epoch(system_time_now()) {
        Some(d) => {
            let secs = duration_whole_secs(&d);
            let nanos = duration_subsec_nanos(&d);
            if secs > 8210266876799u64 {
                Timestamp { seconds: UTC_MAX_SECONDS, nanos: 999_999_999 }
            } else {
                Timestamp { seconds: secs as i64, nanos }
            }
        },
        None => Timestamp { seconds: 0, nanos: 0 },
    }
}

/// Bitemporal bounds: valid time plus transaction time.
#[derive(Debug, Clone, Copy, PartialEq, Eq, Hash, Structural)]
pub struct TemporalBounds {
    pub valid_time_start: Timestamp,
    pub valid_time_end: Timestamp,
    pub transaction_time: Timestamp,
}

impl TemporalBounds {
    /// Bounds of a fresh current version: valid from now, forever.
    pub fn new() -> (b: TemporalBounds)
        ensures
            b.valid_time_start == b.transaction_time,
            b.valid_time_end == forever_spec(),
            b.transaction_time.nanos < 1_000_000_000,
    {
        let now = Timestamp::now();
        TemporalBounds {
            valid_time_start: now,
            valid_time_end: Timestamp::forever(),
            transaction_time: now,
        }
    }

    pub fn with_valid_range(start: Timestamp, end: Timestamp) -> (b: TemporalBounds)
        ensures
            b.valid_time_start == start,
            b.valid_time_end == end,
            b.transaction_time.nanos < 1_000_000_000,
    {
        TemporalBounds { valid_time_start: start, valid_time_end: end, transaction_time: Timestamp::now() }
    }

    /// Whether valid time contains `t` (start inclusive, end exclusive).
    pub fn valid_contains(&self, t: Timestamp) -> (r: bool)
        ensures
            r == (ts_le(self.valid_time_start, t) && ts_lt(t, self.valid_time_end)),
    {
        ts_less_eq(&self.valid_time_start, &t) && ts_less(&t, &self.valid_time_end)
    }

    /// Whether this is a current (non-historical) version.
    pub fn is_current(&self) -> (r: bool)
        ensures
            r == (self.valid_time_end == forever_spec()),
    {
        let f = Timestamp::forever();
        self.valid_time_end.seconds == f.seconds && self.valid_time_end.nanos == f.nanos
    }
}

impl Default for TemporalBounds {
    fn default() -> (b: TemporalBounds)
        ensures
            b.valid_time_start == b.transaction_time,
            b.valid_time_end == forever_spec(),
    {
        TemporalBounds::new()
    }
}

/// Temporal query specification.
#[derive(Debug, Clone, Copy, PartialEq, Eq, Structural)]
pub enum TemporalQuery {
    /// As of a valid time (latest transaction).
    AsOfValid(Timestamp),
    /// As of a transaction time (any valid time).
    AsOfTransaction(Timestamp),
    /// Full bitemporal slice.
    Bitemporal { valid_time: Timestamp, transaction_time: Timestamp },
    /// The current view.
    Current,
}

impl Default for TemporalQuery {
    fn default() -> (q: TemporalQuery)
        ensures
            q == TemporalQuery::Current,
    {
        TemporalQuery::Current
    }
}

/// A store that keeps every version of a value with its valid-time range.
/// Implemented by storage back ends.
pub trait TemporalStore {
    /// Inserts a new version whose valid time starts now and never ends.
    fn insert_current(&mut self, key: String, value: Vec<u8>) -> crate::Result<()>;

    /// Closes the open valid-time range of `key` at `end` (a logical delete
    /// or the end of a version).
    fn close_valid_range(&mut self, key: String, end: Timestamp) -> crate::Result<()>;

    /// Reads the version of `key` that the query selects.
    fn read_at(&self, key: &str, query: TemporalQuery) -> crate::Result<Option<Vec<u8>>>;
}

} // verus!

